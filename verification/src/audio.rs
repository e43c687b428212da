//! Encoding of recorded samples for upload: a WAV file in memory, as Base64 text.

use crate::resample::TARGET_RATE;
use vstd::prelude::*;
use vstd::string::*;

verus! {

/// How samples are laid out in a WAV file.
#[derive(Debug, Clone, Copy)]
pub struct WavFormat {
    pub channels: u16,
    pub sample_rate: u32,
    pub bits_per_sample: u16,
}

/// What uploads are made of: 16-bit mono at the target rate.
pub open spec fn upload_format() -> WavFormat {
    WavFormat { channels: 1, sample_rate: TARGET_RATE, bits_per_sample: 16 }
}

/// The step of writing a WAV file that failed.
#[derive(Debug, Clone, Copy, PartialEq, Eq, Structural)]
pub enum WavStage {
    Open,
    Write,
    Finish,
}

/// Why a WAV file could not be written.
#[derive(Debug)]
pub struct WavError {
    pub stage: WavStage,
    pub detail: String,
}

/// The low 16 bits of `n`, least significant byte first.
pub open spec fn le16(n: int) -> Seq<u8> {
    seq![(n % 256) as u8, (n / 256 % 256) as u8]
}

/// The low 32 bits of `n`, least significant byte first.
pub open spec fn le32(n: int) -> Seq<u8> {
    le16(n) + le16(n / 65536)
}

/// Samples, each least significant byte first.
pub open spec fn sample_bytes(samples: Seq<i16>) -> Seq<u8>
    decreases samples.len(),
{
    if samples.len() == 0 {
        Seq::empty()
    } else {
        sample_bytes(samples.drop_last()) + le16(samples.last() as int)
    }
}

/// The header of a WAV file that holds `n` samples of 16 bits.
pub open spec fn wav_header(format: WavFormat, n: nat) -> Seq<u8> {
    // "RIFF", the size of what follows, "WAVE"
    seq![0x52u8, 0x49, 0x46, 0x46] + le32(36 + 2 * n as int) + seq![0x57u8, 0x41, 0x56, 0x45]
    // "fmt ", its size, PCM
     + seq![0x66u8, 0x6d, 0x74, 0x20] + le32(16) + le16(1)
    // channels, sample rate, bytes per second, bytes per frame, bits per sample
     + le16(format.channels as int) + le32(format.sample_rate as int) + le32(
        format.sample_rate * 2 * format.channels,
    ) + le16(2 * format.channels) + le16(16)
    // "data", its size
     + seq![0x64u8, 0x61, 0x74, 0x61] + le32(2 * n as int)
}

/// A WAV file.
pub open spec fn wav_file(format: WavFormat, samples: Seq<i16>) -> Seq<u8> {
    wav_header(format, samples.len()) + sample_bytes(samples)
}

/// What writing a WAV file came to, as the contracts have it.
pub open spec fn written_view(written: Result<Vec<u8>, (WavStage, String)>) -> Result<
    Seq<u8>,
    (WavStage, Seq<char>),
> {
    match written {
        Ok(bytes) => Ok(bytes@),
        Err((stage, detail)) => Err((stage, detail@)),
    }
}

/// `hound::WavWriter` over a `std::io::Cursor` with room for the whole file: opened with
/// the format, handed each sample in turn, and finalized. What it leaves in the cursor is
/// a header of 44 bytes and the samples. The writer has no reason to refuse mono samples of
/// 16 bits, and passes on no error but the cursor's; a cursor over a vector has none, for
/// it takes every write and seek in memory.
#[verifier::external_body]
fn write_wav(format: WavFormat, samples: &[i16], capacity: usize) -> (r: Result<
    Vec<u8>,
    (WavStage, String),
>)
    requires
        format.channels == 1,
        format.bits_per_sample == 16,
        format.sample_rate > 0,
        format.sample_rate * 2 * format.channels <= u32::MAX,
        36 + 2 * samples@.len() <= u32::MAX,
        capacity == 44 + 2 * samples@.len(),
        capacity <= isize::MAX,
    ensures
        r is Ok,
        r matches Ok(bytes) ==> bytes@ == wav_file(format, samples@),
{
    let WavFormat { channels, sample_rate, bits_per_sample } = format;
    let sample_format = hound::SampleFormat::Int;
    let spec = hound::WavSpec { channels, sample_rate, bits_per_sample, sample_format };
    let mut cursor = std::io::Cursor::new(Vec::with_capacity(capacity));
    let mut writer = hound::WavWriter::new(&mut cursor, spec)
        .map_err(|e| (WavStage::Open, e.to_string()))?;
    for &sample in samples {
        writer.write_sample(sample).map_err(|e| (WavStage::Write, e.to_string()))?;
    }
    writer.finalize().map_err(|e| (WavStage::Finish, e.to_string()))?;
    Ok(cursor.into_inner())
}

/// The Base64 digit for six bits.
pub open spec fn base64_digit(n: int) -> char {
    if n < 26 {
        (65 + n) as char
    } else if n < 52 {
        (71 + n) as char
    } else if n < 62 {
        (n - 4) as char
    } else if n == 62 {
        '+'
    } else {
        '/'
    }
}

/// Bytes in Base64 with the standard alphabet and padding.
pub open spec fn base64(bytes: Seq<u8>) -> Seq<char>
    decreases bytes.len(),
{
    if bytes.len() == 0 {
        Seq::empty()
    } else if bytes.len() == 1 {
        let n = bytes[0] * 16;
        seq![base64_digit(n / 64), base64_digit(n % 64), '=', '=']
    } else if bytes.len() == 2 {
        let n = (bytes[0] * 256 + bytes[1]) * 4;
        seq![base64_digit(n / 4096), base64_digit(n / 64 % 64), base64_digit(n % 64), '=']
    } else {
        let n = bytes[0] * 65536 + bytes[1] * 256 + bytes[2];
        seq![
            base64_digit(n / 262144),
            base64_digit(n / 4096 % 64),
            base64_digit(n / 64 % 64),
            base64_digit(n % 64),
        ] + base64(bytes.skip(3))
    }
}

/// Whether the Base64 text of `n` bytes fits in memory.
pub open spec fn text_fits(n: nat) -> bool {
    4 * ((n + 2) / 3) <= isize::MAX
}

/// `base64::engine::general_purpose::STANDARD.encode`: each three bytes become four digits
/// of the standard alphabet, and the last one or two are padded with `=`. It panics where
/// the text would not fit in memory.
#[verifier::external_body]
pub(crate) fn encode_base64(bytes: &[u8]) -> (r: String)
    requires
        text_fits(bytes@.len()),
    ensures
        r@ == base64(bytes@),
{
    base64::Engine::encode(&base64::engine::general_purpose::STANDARD, bytes)
}

/// Whether `n` samples fit in a WAV file, and the file's text in memory.
pub open spec fn encodable(n: nat) -> bool {
    &&& 36 + 2 * n <= u32::MAX
    &&& text_fits(44 + 2 * n)
}

/// Whether `n` samples fit in a WAV file, and the file's text in memory.
pub fn can_encode(n: usize) -> (r: bool)
    ensures
        r == encodable(n as nat),
{
    let size: u128 = 46 + 2 * n as u128;
    size <= u32::MAX as u128 + 10 && 4 * (size / 3) <= isize::MAX as u128
}

impl WavError {
    /// How the failure is reported.
    pub open spec fn report(self) -> Seq<char> {
        match self.stage {
            WavStage::Open => "Failed to initialize in-memory WavWriter: "@ + self.detail@,
            WavStage::Write => "Failed writing sample: "@ + self.detail@,
            WavStage::Finish => "Failed finalizing WAV buffer: "@ + self.detail@,
        }
    }

    /// How the failure is reported.
    pub fn message(&self) -> (r: String)
        ensures
            r@ == self.report(),
    {
        let mut s = String::from_str(
            match self.stage {
                WavStage::Open => "Failed to initialize in-memory WavWriter: ",
                WavStage::Write => "Failed writing sample: ",
                WavStage::Finish => "Failed finalizing WAV buffer: ",
            },
        );
        s.append(self.detail.as_str());
        s
    }
}

/// A WAV file of the upload format, as bytes.
pub fn encode_wav(samples: &[i16]) -> (r: Result<Vec<u8>, (WavStage, String)>)
    requires
        encodable(samples@.len()),
    ensures
        r matches Ok(bytes) && bytes@ == wav_file(upload_format(), samples@),
{
    let format = WavFormat { channels: 1, sample_rate: TARGET_RATE, bits_per_sample: 16 };
    assert(format == upload_format());
    write_wav(format, samples, 44 + 2 * samples.len())
}

/// The text to upload, given what writing the WAV file came to.
pub open spec fn uploaded(written: Result<Seq<u8>, (WavStage, Seq<char>)>) -> Result<
    Seq<char>,
    (WavStage, Seq<char>),
> {
    match written {
        Ok(bytes) => Ok(base64(bytes)),
        Err(failure) => Err(failure),
    }
}

/// A text to upload or a failure, as the contracts have it.
pub open spec fn upload_view(r: Result<String, WavError>) -> Result<
    Seq<char>,
    (WavStage, Seq<char>),
> {
    match r {
        Ok(s) => Ok(s@),
        Err(error) => Err((error.stage, error.detail@)),
    }
}

/// The text to upload, given what writing the WAV file came to.
pub fn upload_text(written: Result<Vec<u8>, (WavStage, String)>) -> (r: Result<String, WavError>)
    requires
        written matches Ok(bytes) ==> text_fits(bytes@.len()),
    ensures
        upload_view(r) == uploaded(written_view(written)),
{
    match written {
        Ok(bytes) => Ok(encode_base64(bytes.as_slice())),
        Err((stage, detail)) => Err(WavError { stage, detail }),
    }
}

/// A WAV file of the upload format, as Base64 text.
pub fn encode_audio(samples: &[i16]) -> (r: Result<String, WavError>)
    requires
        encodable(samples@.len()),
    ensures
        r matches Ok(s) && s@ == base64(wav_file(upload_format(), samples@)),
{
    proof {
        lemma_wav_length(upload_format(), samples@);
    }
    upload_text(encode_wav(samples))
}

/// A WAV file has a header of 44 bytes and two bytes for each sample.
pub proof fn lemma_wav_length(format: WavFormat, samples: Seq<i16>)
    ensures
        wav_header(format, samples.len()).len() == 44,
        wav_file(format, samples).len() == 44 + 2 * samples.len(),
{
    lemma_sample_bytes(samples, 0);
}

proof fn lemma_sample_bytes(samples: Seq<i16>, i: int)
    ensures
        sample_bytes(samples).len() == 2 * samples.len(),
        0 <= i < samples.len() ==> sample_bytes(samples).subrange(2 * i, 2 * i + 2) == le16(
            samples[i] as int,
        ),
    decreases samples.len(),
{
    if samples.len() > 0 {
        let rest = samples.drop_last();
        lemma_sample_bytes(rest, i);
        if 0 <= i < samples.len() {
            if i < rest.len() {
                assert(sample_bytes(samples).subrange(2 * i, 2 * i + 2) =~= sample_bytes(
                    rest,
                ).subrange(2 * i, 2 * i + 2));
            } else {
                assert(sample_bytes(samples).subrange(2 * i, 2 * i + 2) =~= le16(
                    samples[i] as int,
                ));
            }
        }
    }
}

/// The sample that two bytes stand for.
pub open spec fn sample_of(low: u8, high: u8) -> int {
    let n = low + 256 * high;
    if n < 0x8000 {
        n
    } else {
        n - 0x1_0000
    }
}

/// Every sample can be read back from its place in a WAV file.
pub proof fn lemma_wav_holds_samples(format: WavFormat, samples: Seq<i16>, i: int)
    requires
        0 <= i < samples.len(),
    ensures
        ({
            let file = wav_file(format, samples);
            sample_of(file[44 + 2 * i], file[45 + 2 * i]) == samples[i]
        }),
{
    lemma_wav_length(format, samples);
    lemma_sample_bytes(samples, i);
    let data = sample_bytes(samples);
    let two = data.subrange(2 * i, 2 * i + 2);
    let file = wav_file(format, samples);
    assert(file[44 + 2 * i] == data[2 * i] == two[0]);
    assert(file[45 + 2 * i] == data[2 * i + 1] == two[1]);
}

/// Base64 takes four digits for every three bytes or fewer.
pub proof fn lemma_base64_length(bytes: Seq<u8>)
    ensures
        base64(bytes).len() == 4 * ((bytes.len() + 2) / 3),
    decreases bytes.len(),
{
    if bytes.len() > 2 {
        lemma_base64_length(bytes.skip(3));
    }
}

proof fn lemma_digits(x: int, y: int)
    requires
        0 <= x < 64,
        0 <= y < 64,
        base64_digit(x) == base64_digit(y),
    ensures
        x == y,
{
}

proof fn lemma_padding(x: int)
    requires
        0 <= x < 64,
    ensures
        base64_digit(x) != '=',
{
}

/// The first three bytes as one number, with zeros for those that are missing.
#[verifier::opaque]
spec fn first_group(bytes: Seq<u8>) -> int {
    let second = if bytes.len() > 1 {
        bytes[1] as int
    } else {
        0
    };
    let third = if bytes.len() > 2 {
        bytes[2] as int
    } else {
        0
    };
    bytes[0] * 65536 + second * 256 + third
}

proof fn lemma_first_group(bytes: Seq<u8>)
    requires
        bytes.len() > 0,
    ensures
        0 <= first_group(bytes) < 0x100_0000,
        bytes.len() == 1 ==> first_group(bytes) % 4096 == 0,
        bytes.len() == 2 ==> first_group(bytes) % 64 == 0,
        base64(bytes).len() >= 4,
        base64(bytes)[0] == base64_digit(first_group(bytes) / 262144),
        base64(bytes)[1] == base64_digit(first_group(bytes) / 4096 % 64),
        base64(bytes)[2] == if bytes.len() > 1 {
            base64_digit(first_group(bytes) / 64 % 64)
        } else {
            '='
        },
        base64(bytes)[3] == if bytes.len() > 2 {
            base64_digit(first_group(bytes) % 64)
        } else {
            '='
        },
{
    reveal(first_group);
}

proof fn lemma_number(x: int, y: int)
    requires
        x / 262144 == y / 262144,
        x / 4096 % 64 == y / 4096 % 64,
        x / 64 % 64 == y / 64 % 64,
        x % 64 == y % 64,
    ensures
        x == y,
{
}

/// A number whose low bits are zero has zeros for its low digits.
proof fn lemma_low_digits(x: int)
    ensures
        x % 4096 == 0 ==> x / 64 % 64 == 0 && x % 64 == 0,
{
}

proof fn lemma_rest(bytes: Seq<u8>)
    requires
        bytes.len() > 2,
    ensures
        base64(bytes).skip(4) == base64(bytes.skip(3)),
{
    assert(base64(bytes).skip(4) =~= base64(bytes.skip(3)));
}

proof fn lemma_same_group(a: Seq<u8>, b: Seq<u8>)
    requires
        a.len() > 0,
        b.len() > 0,
        base64(a) == base64(b),
    ensures
        a.len() > 1 <==> b.len() > 1,
        a.len() > 2 <==> b.len() > 2,
        first_group(a) == first_group(b),
{
    let x = first_group(a);
    let y = first_group(b);
    lemma_first_group(a);
    lemma_first_group(b);
    lemma_digits(x / 262144, y / 262144);
    lemma_digits(x / 4096 % 64, y / 4096 % 64);
    lemma_padding(x / 64 % 64);
    lemma_padding(y / 64 % 64);
    lemma_padding(x % 64);
    lemma_padding(y % 64);
    lemma_low_digits(x);
    lemma_low_digits(y);
    if a.len() > 1 {
        lemma_digits(x / 64 % 64, y / 64 % 64);
    }
    if a.len() > 2 {
        lemma_digits(x % 64, y % 64);
    }
    lemma_number(x, y);
}

proof fn lemma_group_bytes(a: Seq<u8>, b: Seq<u8>)
    requires
        a.len() > 0,
        b.len() > 0,
        a.len() > 1 <==> b.len() > 1,
        a.len() > 2 <==> b.len() > 2,
        first_group(a) == first_group(b),
    ensures
        a[0] == b[0],
        a.len() > 1 ==> a[1] == b[1],
        a.len() > 2 ==> a[2] == b[2],
{
    reveal(first_group);
}

/// No two byte strings have the same Base64 text.
pub proof fn lemma_base64_injective(a: Seq<u8>, b: Seq<u8>)
    requires
        base64(a) == base64(b),
    ensures
        a == b,
    decreases a.len(),
{
    lemma_base64_length(a);
    lemma_base64_length(b);
    if a.len() == 0 {
        assert(a =~= b);
    } else {
        lemma_same_group(a, b);
        lemma_group_bytes(a, b);
        if a.len() > 2 {
            lemma_rest(a);
            lemma_rest(b);
            lemma_base64_injective(a.skip(3), b.skip(3));
            assert(a =~= seq![a[0], a[1], a[2]] + a.skip(3));
            assert(b =~= seq![b[0], b[1], b[2]] + b.skip(3));
        } else {
            assert(a =~= b);
        }
    }
}

/// The number that two bytes make, the low one first.
pub open spec fn number16(file: Seq<u8>, at: int) -> int {
    file[at] + 0x100 * file[at + 1]
}

/// The number that four bytes make, the lowest first.
pub open spec fn number32(file: Seq<u8>, at: int) -> int {
    number16(file, at) + 0x1_0000 * number16(file, at + 2)
}

/// The header of an upload says that it is 16-bit PCM with one channel at 16 kHz, and gives
/// the sizes of the file and of the samples.
pub proof fn lemma_upload_header(samples: Seq<i16>)
    requires
        36 + 2 * samples.len() <= u32::MAX,
    ensures
        ({
            let file = wav_file(upload_format(), samples);
            &&& number32(file, 4) + 8 == file.len()
            &&& number16(file, 20) == 1
            &&& number16(file, 22) == 1
            &&& number32(file, 24) == 16000
            &&& number32(file, 28) == 32000
            &&& number16(file, 32) == 2
            &&& number16(file, 34) == 16
            &&& number32(file, 40) == 2 * samples.len()
        }),
{
    lemma_wav_length(upload_format(), samples);
    let n = samples.len();
    let header = wav_header(upload_format(), n);
    let file = wav_file(upload_format(), samples);
    assert(forall|i: int| 0 <= i < 44 ==> file[i] == header[i]);
    let format = upload_format();
    assert(format.sample_rate * 2 * format.channels == 32000) by (nonlinear_arith)
        requires
            format.sample_rate == 16000,
            format.channels == 1,
    ;
    lemma_field32(file, 4, 36 + 2 * n as int);
    lemma_field16(file, 20, 1);
    lemma_field16(file, 22, 1);
    lemma_field32(file, 24, 16000);
    lemma_field32(file, 28, 32000);
    lemma_field16(file, 32, 2);
    lemma_field16(file, 34, 16);
    lemma_field32(file, 40, 2 * n as int);
}

proof fn lemma_field16(file: Seq<u8>, at: int, n: int)
    requires
        0 <= n < 0x1_0000,
        0 <= at < file.len() - 1,
    ensures
        file[at] == le16(n)[0] && file[at + 1] == le16(n)[1] ==> number16(file, at) == n,
{
}

proof fn lemma_field32(file: Seq<u8>, at: int, n: int)
    requires
        0 <= n <= u32::MAX,
        0 <= at < file.len() - 3,
    ensures
        file[at] == le32(n)[0] && file[at + 1] == le32(n)[1] && file[at + 2] == le32(n)[2]
            && file[at + 3] == le32(n)[3] ==> number32(file, at) == n,
{
}

} // verus!
