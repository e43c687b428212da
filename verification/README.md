# voice_prompt

Turns speech into prompts: records from an audio input device, has the recording
transcribed with a custom vocabulary, on request has the transcript refined into a prompt,
and puts the result on the clipboard, in the terminal or into the next program.

The library under `src/` holds the rules of the tool, each with its contract and proof:

| Module | Holds |
| :--- | :--- |
| `binary`, `single` | floating-point arithmetic carried out exactly on integers |
| `downmix`, `float_mix` | mixing of interleaved frames down to mono |
| `resample`, `resample_laws` | resampling to 16 kHz, and what holds of it |
| `audio` | the WAV file and its Base64 text |
| `text`, `json`, `http` | texts, documents and reply statuses |
| `transcript` | the transcription request and its outcome |
| `refine` | the refinement requests, with retries and a fallback |
| `credentials` | where the API key comes from |
| `device` | which device to record from |
| `output` | the clipboard and what is printed |
| `telemetry` | the record that is kept of each run |

`app/` is the program around it: arguments, the audio device, the network, the clipboard
and the history log.

## Usage

```
voice-prompt                  # record until Enter is pressed, then transcribe
voice-prompt -d 5 -r -c       # record five seconds, refine, copy
voice-prompt --device "Yeti"  # record from a certain device
```

The API key is taken from `GEMINI_API_KEY`, or else from `nushell/secrets.nu` below
`APPDATA`.
