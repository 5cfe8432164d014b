//! Audio matching: acoustic fingerprints from decoded PCM, and the keep
//! policy that prefers the highest-fidelity copy of a recording.
use vstd::prelude::*;
use crate::skip::{SkipError, SkipReason};
use crate::report::{decimal, decimal_text};
use crate::paths::{
    lemma_path_before_properties, path_before, path_before_exec, path_extension, path_extension_exec, path_order, sort_paths,
    views,
};
use lofty::file::{AudioFile, TaggedFileExt};

verus! {

/// How audio files are matched: by recording (acoustic fingerprint) or by
/// encoding (the encoded stream with its tags excluded).
#[derive(Clone, Copy, Debug, PartialEq, Eq, Structural)]
pub enum MatchStrategy {
    Recording,
    Encoding,
}

/// An acoustic fingerprint: one item per short window of audio.
#[derive(Debug)]
pub struct Fingerprint(pub Vec<u32>);

impl Fingerprint {
    /// A short description that names the number of items, as
    /// `Fingerprint(<n> items)`.
    pub fn describe(&self) -> (t: String)
        ensures
            t@ == "Fingerprint("@ + decimal_text(self.0.len() as nat) + " items)"@,
    {
        let mut t = String::from_str("Fingerprint(");
        t.append(decimal(self.0.len()).as_str());
        t.append(" items)");
        t
    }
}

/// Sample rate, in Hz, of the PCM that fingerprints are computed from.
pub const PCM_SAMPLE_RATE: u32 = 11025;

/// Longest stretch of audio, in seconds, that is decoded for a fingerprint.
pub const MAX_DECODE_SECONDS: u32 = 120;

/// The signed 16-bit sample whose little-endian bytes are `lo`, `hi`.
pub open spec fn sample_value(lo: u8, hi: u8) -> int {
    let u = hi as int * 256 + lo as int;
    if u >= 32768 {
        u - 65536
    } else {
        u
    }
}

/// The samples of mono 16-bit little-endian PCM; a trailing odd byte is dropped.
pub open spec fn pcm_samples_of(pcm: Seq<u8>) -> Seq<int> {
    Seq::new(pcm.len() / 2, |k: int| sample_value(pcm[2 * k], pcm[2 * k + 1]))
}

/// Reads mono 16-bit little-endian PCM into samples; a trailing odd byte is dropped.
pub fn pcm_samples(pcm: &Vec<u8>) -> (samples: Vec<i16>)
    ensures
        samples@.len() == pcm_samples_of(pcm@).len(),
        forall|k: int| 0 <= k < samples@.len() ==> samples@[k] as int == #[trigger] pcm_samples_of(pcm@)[k],
{
    let n = pcm.len() / 2;
    let mut samples: Vec<i16> = Vec::new();
    let mut k: usize = 0;
    while k < n
        invariant
            n == pcm.len() / 2,
            k <= n,
            samples@.len() == k,
            forall|q: int| 0 <= q < k ==> samples@[q] as int == #[trigger] pcm_samples_of(pcm@)[q],
        decreases n - k,
    {
        let lo = pcm[2 * k];
        let hi = pcm[2 * k + 1];
        let u: u32 = (hi as u32) * 256 + lo as u32;
        let v: i16 = if u >= 32768 {
            (u as i32 - 65536) as i16
        } else {
            u as i16
        };
        samples.push(v);
        k = k + 1;
    }
    samples
}

/// How many items the fingerprinter gives for `n` samples at its own rate:
/// one frame of 4096 samples every 1365 samples (a trailing part frame is
/// not padded), of which the five-tap chroma filter swallows the first four
/// and the classifiers, up to 16 frames wide, the next fifteen.
pub open spec fn chromaprint_item_count(n: nat) -> nat {
    let frames: int = if n >= 4096 {
        (n - 4096) / 1365 + 1
    } else {
        0
    };
    if frames > 19 {
        (frames - 19) as nat
    } else {
        0
    }
}

/// Calls `rusty_chromaprint::Fingerprinter` (`Configuration::preset_test2`,
/// `start` at 11025 Hz mono, `consume`, `finish`, `fingerprint`) on the
/// samples. `start` succeeds for one channel at a rate above 1000 Hz that the
/// configuration already uses, so the call succeeds. At its own rate nothing
/// is resampled, so the number of items follows from the number of samples
/// (`chromaprint_item_count`: `Fft::consume`, `ChromaFilter::consume` and
/// `FingerprintCalculator::consume`). Nothing is claimed of the items'
/// values: they come from floating-point signal processing whose rounding may
/// differ between machines.
#[verifier::external_body]
fn chromaprint_items(samples: &[i16]) -> (r: Result<Vec<u32>, String>)
    ensures
        r is Ok,
        r matches Ok(v) ==> v@.len() == chromaprint_item_count(samples@.len()),
{
    let config = rusty_chromaprint::Configuration::preset_test2();
    let mut printer = rusty_chromaprint::Fingerprinter::new(&config);
    printer.start(PCM_SAMPLE_RATE, 1).map_err(|e| e.to_string())?;
    printer.consume(samples);
    printer.finish();
    Ok(printer.fingerprint().to_vec())
}

/// The outcome of fingerprinting the audio of `path`, given what the
/// fingerprinter gave: its items, or why it refused the PCM stream.
pub open spec fn fingerprint_result(path: Seq<char>, items: Result<Seq<u32>, Seq<char>>) -> Result<
    Seq<u32>,
    (SkipReason, Seq<char>),
> {
    match items {
        Err(e) => Err((SkipReason::DecodeFailed, "fingerprinter rejected PCM stream: "@ + e)),
        Ok(v) => if v.len() == 0 {
            Err((SkipReason::TooShort, "audio in "@ + path + " is too short to fingerprint"@))
        } else {
            Ok(v)
        },
    }
}

/// The view of what the fingerprinter gave.
pub open spec fn items_view(items: Result<Vec<u32>, String>) -> Result<Seq<u32>, Seq<char>> {
    match items {
        Ok(v) => Ok(v@),
        Err(e) => Err(e@),
    }
}

/// The view of a fingerprinting outcome.
pub open spec fn fingerprint_view(r: Result<Fingerprint, SkipError>) -> Result<Seq<u32>, (SkipReason, Seq<char>)> {
    match r {
        Ok(f) => Ok(f.0@),
        Err(e) => Err((e.reason, e.detail@)),
    }
}

/// Turns what the fingerprinter gave for the audio of `path` into a
/// fingerprint: a refused stream fails to decode, and audio too short to
/// yield a single item is skipped as too short.
pub fn fingerprint_outcome(path: &str, items: Result<Vec<u32>, String>) -> (r: Result<Fingerprint, SkipError>)
    ensures
        fingerprint_view(r) == fingerprint_result(path@, items_view(items)),
{
    match items {
        Err(e) => {
            let mut detail = String::from_str("fingerprinter rejected PCM stream: ");
            detail.append(e.as_str());
            Err(SkipError::new(SkipReason::DecodeFailed, detail))
        },
        Ok(v) => {
            if v.len() == 0 {
                let mut detail = String::from_str("audio in ");
                detail.append(path);
                detail.append(" is too short to fingerprint");
                Err(SkipError::new(SkipReason::TooShort, detail))
            } else {
                Ok(Fingerprint(v))
            }
        },
    }
}

/// Fingerprints the audio of `path` from the PCM that ffmpeg wrote for it;
/// `decoded` tells whether ffmpeg finished successfully. A failed decode is
/// skipped as `ffmpeg could not decode audio from <path>`; otherwise the
/// samples of the PCM go to the fingerprinter and `fingerprint_outcome`
/// judges what comes back: audio too short to give an item is skipped as too
/// short, and longer audio gives as many items as `chromaprint_item_count`.
pub fn fingerprint_from_pcm(path: &str, decoded: bool, pcm: &Vec<u8>) -> (r: Result<Fingerprint, SkipError>)
    ensures
        !decoded ==> fingerprint_view(r) == Err::<Seq<u32>, (SkipReason, Seq<char>)>(
            (SkipReason::DecodeFailed, "ffmpeg could not decode audio from "@ + path@),
        ),
        decoded ==> exists|v: Seq<u32>|
            v.len() == chromaprint_item_count(pcm_samples_of(pcm@).len()) && fingerprint_view(r) == fingerprint_result(
                path@,
                Ok(v),
            ),
        decoded && chromaprint_item_count(pcm_samples_of(pcm@).len()) == 0 ==> fingerprint_view(r) == Err::<
            Seq<u32>,
            (SkipReason, Seq<char>),
        >((SkipReason::TooShort, "audio in "@ + path@ + " is too short to fingerprint"@)),
        decoded && chromaprint_item_count(pcm_samples_of(pcm@).len()) > 0 ==> (r matches Ok(f) && f.0@.len()
            == chromaprint_item_count(pcm_samples_of(pcm@).len())),
{
    if !decoded {
        let mut detail = String::from_str("ffmpeg could not decode audio from ");
        detail.append(path);
        return Err(SkipError::new(SkipReason::DecodeFailed, detail));
    }
    let samples = pcm_samples(pcm);
    let items = chromaprint_items(samples.as_slice());
    let ghost iv = items_view(items);
    let r = fingerprint_outcome(path, items);
    assert(fingerprint_view(r) == fingerprint_result(path@, iv));
    assert(iv->Ok_0.len() == chromaprint_item_count(pcm_samples_of(pcm@).len()));
    r
}

/// Fidelity of an audio file: lossless first, then higher bitrate.
#[derive(Clone, Copy, Debug, Eq, Ord, PartialEq, PartialOrd)]
pub struct AudioQuality {
    pub lossless: bool,
    pub bitrate: u32,
}

/// `a` has strictly higher fidelity than `b`: lossless beats lossy, and within
/// the same class the higher bitrate wins.
pub open spec fn higher_fidelity(a: AudioQuality, b: AudioQuality) -> bool {
    (a.lossless && !b.lossless) || (a.lossless == b.lossless && a.bitrate > b.bitrate)
}

/// Whether `a` has strictly higher fidelity than `b`.
pub fn outranks(a: &AudioQuality, b: &AudioQuality) -> (r: bool)
    ensures
        r == higher_fidelity(*a, *b),
{
    (a.lossless && !b.lossless) || (a.lossless == b.lossless && a.bitrate > b.bitrate)
}

/// The container types that audio metadata can report.
#[derive(Clone, Copy, Debug, PartialEq, Eq, Structural)]
pub enum AudioFileType {
    Aac,
    Aiff,
    Ape,
    Flac,
    Mpeg,
    Mp4,
    Mpc,
    Opus,
    Vorbis,
    Speex,
    Wav,
    WavPack,
    Custom,
}

/// Flac, wav and aiff are lossless.
pub open spec fn is_lossless(t: AudioFileType) -> bool {
    t == AudioFileType::Flac || t == AudioFileType::Wav || t == AudioFileType::Aiff
}

/// The quality of an audio file from its metadata: its container type and
/// audio bitrate. A file whose metadata cannot be read ranks bottom (lossy,
/// bitrate 0); a missing bitrate counts as 0.
pub fn quality_from(metadata: Option<(AudioFileType, Option<u32>)>) -> (q: AudioQuality)
    ensures
        metadata matches Some((t, b)) ==> (q.lossless <==> (t == AudioFileType::Flac || t == AudioFileType::Wav
            || t == AudioFileType::Aiff)),
        metadata matches Some((t, Some(x))) ==> q.bitrate == x,
        metadata matches Some((t, None)) ==> q.bitrate == 0,
        metadata is None ==> !q.lossless && q.bitrate == 0,
        q == quality_spec(metadata),
{
    match metadata {
        None => AudioQuality { lossless: false, bitrate: 0 },
        Some((t, b)) => {
            let lossless = match t {
                AudioFileType::Flac | AudioFileType::Wav | AudioFileType::Aiff => true,
                _ => false,
            };
            let bitrate = match b {
                Some(x) => x,
                None => 0,
            };
            AudioQuality { lossless, bitrate }
        },
    }
}

/// The quality that `quality_from` gives for the metadata.
pub open spec fn quality_spec(metadata: Option<(AudioFileType, Option<u32>)>) -> AudioQuality {
    match metadata {
        None => AudioQuality { lossless: false, bitrate: 0 },
        Some((t, b)) => AudioQuality {
            lossless: is_lossless(t),
            bitrate: match b {
                Some(x) => x,
                None => 0,
            },
        },
    }
}

/// Law: the quality read from metadata is lossless exactly for flac, wav and
/// aiff containers, whatever the bitrate; its bitrate is the one read, 0 when
/// none was; unreadable metadata ranks lossy at bitrate 0.
pub proof fn lemma_quality_from_metadata(t: AudioFileType, b: Option<u32>)
    ensures
        quality_spec(Some((t, b))).lossless <==> (t == AudioFileType::Flac || t == AudioFileType::Wav || t
            == AudioFileType::Aiff),
        b matches Some(x) ==> quality_spec(Some((t, b))).bitrate == x,
        b is None ==> quality_spec(Some((t, b))).bitrate == 0,
        !quality_spec(None).lossless,
        quality_spec(None).bitrate == 0,
{
}

#[verifier::external_type_specification]
#[verifier::external_body]
pub struct ExLoftyFileType(lofty::file::FileType);

/// Converts `lofty::file::FileType` into the library's container type, one
/// variant for each; types that `lofty` adds later become `Custom`.
#[verifier::external_body]
fn audio_file_type(t: lofty::file::FileType) -> AudioFileType {
    match t {
        lofty::file::FileType::Aac => AudioFileType::Aac,
        lofty::file::FileType::Aiff => AudioFileType::Aiff,
        lofty::file::FileType::Ape => AudioFileType::Ape,
        lofty::file::FileType::Flac => AudioFileType::Flac,
        lofty::file::FileType::Mpeg => AudioFileType::Mpeg,
        lofty::file::FileType::Mp4 => AudioFileType::Mp4,
        lofty::file::FileType::Mpc => AudioFileType::Mpc,
        lofty::file::FileType::Opus => AudioFileType::Opus,
        lofty::file::FileType::Vorbis => AudioFileType::Vorbis,
        lofty::file::FileType::Speex => AudioFileType::Speex,
        lofty::file::FileType::Wav => AudioFileType::Wav,
        lofty::file::FileType::WavPack => AudioFileType::WavPack,
        _ => AudioFileType::Custom,
    }
}

/// The container type and audio bitrate that `lofty` reads from the audio
/// file content `encoded` whose extension is `extension`; `None` when it
/// cannot read them.
pub uninterp spec fn audio_metadata(encoded: Seq<u8>, extension: Seq<char>) -> Option<(AudioFileType, Option<u32>)>;

/// Reads the metadata as `lofty::read_from_path` does, on the file content:
/// `FileType::from_ext` picks the parser from the extension (no custom
/// resolver is registered by this program), `Probe::with_file_type` and
/// `Probe::read` parse, `TaggedFileExt::file_type` and
/// `FileProperties::audio_bitrate` give the result. Claimed: the result is
/// `audio_metadata` of the arguments.
#[verifier::external_body]
fn audio_metadata_of(encoded: &[u8], extension: &str) -> (r: Option<(AudioFileType, Option<u32>)>)
    ensures
        r == audio_metadata(encoded@, extension@),
{
    let t = lofty::file::FileType::from_ext(extension)?;
    let tagged = lofty::probe::Probe::with_file_type(std::io::Cursor::new(encoded), t).read().ok()?;
    Some((audio_file_type(tagged.file_type()), tagged.properties().audio_bitrate()))
}

/// The fidelity of the audio file at `path` whose content is `encoded`, from
/// its metadata: a file without an extension, or whose metadata cannot be
/// read, ranks bottom.
pub fn quality_of(path: &str, encoded: &[u8]) -> (q: AudioQuality)
    ensures
        q == quality_spec(
            match path_extension(path@) {
                Some(e) => audio_metadata(encoded@, e),
                None => None,
            },
        ),
{
    match path_extension_exec(path) {
        Some(e) => quality_from(audio_metadata_of(encoded, e.as_str())),
        None => quality_from(None),
    }
}

/// The kinds of tag that `lofty` reads, and `Unknown` for a kind it adds later.
#[derive(Clone, Copy, Debug, PartialEq, Eq, Structural)]
pub enum TagKind {
    Ape,
    Id3v1,
    Id3v2,
    Mp4Ilst,
    VorbisComments,
    RiffInfo,
    AiffText,
    Unknown,
}

#[verifier::external_type_specification]
#[verifier::external_body]
pub struct ExLoftyTagType(lofty::tag::TagType);

/// Converts `lofty::tag::TagType` into the library's tag kind, one variant
/// for each; kinds that `lofty` adds later become `Unknown`.
#[verifier::external_body]
fn tag_kind(t: lofty::tag::TagType) -> TagKind {
    match t {
        lofty::tag::TagType::Ape => TagKind::Ape,
        lofty::tag::TagType::Id3v1 => TagKind::Id3v1,
        lofty::tag::TagType::Id3v2 => TagKind::Id3v2,
        lofty::tag::TagType::Mp4Ilst => TagKind::Mp4Ilst,
        lofty::tag::TagType::VorbisComments => TagKind::VorbisComments,
        lofty::tag::TagType::RiffInfo => TagKind::RiffInfo,
        lofty::tag::TagType::AiffText => TagKind::AiffText,
        _ => TagKind::Unknown,
    }
}

/// Converts a known tag kind back into `lofty::tag::TagType`, one variant for each.
#[verifier::external_body]
fn lofty_tag_type(k: TagKind) -> lofty::tag::TagType
    requires
        !(k is Unknown),
{
    match k {
        TagKind::Ape | TagKind::Unknown => lofty::tag::TagType::Ape,
        TagKind::Id3v1 => lofty::tag::TagType::Id3v1,
        TagKind::Id3v2 => lofty::tag::TagType::Id3v2,
        TagKind::Mp4Ilst => lofty::tag::TagType::Mp4Ilst,
        TagKind::VorbisComments => lofty::tag::TagType::VorbisComments,
        TagKind::RiffInfo => lofty::tag::TagType::RiffInfo,
        TagKind::AiffText => lofty::tag::TagType::AiffText,
    }
}

/// `lofty` recognises and parses the container of the audio file content
/// `encoded` (`Probe::guess_file_type` and `Probe::read` succeed on it).
pub uninterp spec fn container_parses(encoded: Seq<u8>) -> bool;

/// The kinds of the tags that `lofty` finds in the audio file content
/// `encoded`, in the order `TaggedFileExt::tags` lists them.
pub uninterp spec fn tag_kinds(encoded: Seq<u8>) -> Seq<TagKind>;

/// Calls `Probe::new`, `Probe::guess_file_type` and `Probe::read` on the
/// content held in a `Cursor`, and lists the kind of each tag that
/// `TaggedFileExt::tags` gives (`Tag::tag_type`). Claimed: the call succeeds
/// exactly when the container parses, and then gives `tag_kinds` of the
/// content. An error is `lofty`'s message.
#[verifier::external_body]
fn read_tag_kinds(encoded: &[u8]) -> (r: Result<Vec<TagKind>, String>)
    ensures
        r is Ok <==> container_parses(encoded@),
        r matches Ok(k) ==> k@ == tag_kinds(encoded@),
{
    let mut cursor = std::io::Cursor::new(encoded);
    let probe = lofty::probe::Probe::new(&mut cursor).guess_file_type().map_err(|e| e.to_string())?;
    let tagged = probe.read().map_err(|e| e.to_string())?;
    Ok(tagged.tags().iter().map(|t| tag_kind(t.tag_type())).collect())
}

/// The audio file content `content` with the tag region of kind `kind` taken
/// out by `lofty`; `None` when `lofty` cannot take it out.
pub uninterp spec fn tag_removed(content: Seq<u8>, kind: TagKind) -> Option<Seq<u8>>;

/// Calls `TagType::remove_from` (which `Tag::remove_from` calls for a tag of
/// that type) on the content held in a `Cursor`, which shrinks as a file
/// does. Claimed: the call succeeds exactly when `tag_removed` is some
/// content, and then gives it. An error is `lofty`'s message.
#[verifier::external_body]
fn remove_tag(content: &[u8], kind: TagKind) -> (r: Result<Vec<u8>, String>)
    requires
        !(kind is Unknown),
    ensures
        r is Ok <==> tag_removed(content@, kind) is Some,
        r matches Ok(c) ==> tag_removed(content@, kind) == Some(c@),
{
    let mut cursor = std::io::Cursor::new(content.to_vec());
    lofty_tag_type(kind).remove_from(&mut cursor, lofty::config::WriteOptions::default()).map_err(|e| e.to_string())?;
    Ok(cursor.into_inner())
}

/// The content left after taking out the tags of the kinds `kinds`, one after
/// the other; `None` when one cannot be taken out.
pub open spec fn strip_from(content: Seq<u8>, kinds: Seq<TagKind>) -> Option<Seq<u8>>
    decreases kinds.len(),
{
    if kinds.len() == 0 {
        Some(content)
    } else if kinds[0] is Unknown {
        None
    } else {
        match tag_removed(content, kinds[0]) {
            Some(c) => strip_from(c, kinds.drop_first()),
            None => None,
        }
    }
}

/// Law: with no kind to take out the content is left as it is, and taking out
/// one known kind is what `lofty` does for that kind.
pub proof fn lemma_strip_single_kind(content: Seq<u8>, k: TagKind)
    requires
        !(k is Unknown),
    ensures
        strip_from(content, Seq::<TagKind>::empty()) == Some(content),
        strip_from(content, seq![k]) == tag_removed(content, k),
{
    assert(seq![k].drop_first() =~= Seq::<TagKind>::empty());
    assert(seq![k][0] == k);
    match tag_removed(content, k) {
        Some(c) => {
            assert(strip_from(c, seq![k].drop_first()) == Some(c));
        },
        None => {},
    }
}

/// Law: taking out the kinds `a + b` is taking out those of `a` and then,
/// from what is left, those of `b`; so every listed kind is taken out, each
/// from what the ones before it left.
pub proof fn lemma_strip_in_stages(content: Seq<u8>, a: Seq<TagKind>, b: Seq<TagKind>)
    ensures
        strip_from(content, a + b) == (match strip_from(content, a) {
            Some(m) => strip_from(m, b),
            None => None,
        }),
    decreases a.len(),
{
    if a.len() == 0 {
        assert(a + b =~= b);
    } else {
        assert((a + b)[0] == a[0]);
        assert((a + b).drop_first() =~= a.drop_first() + b);
        if !(a[0] is Unknown) {
            match tag_removed(content, a[0]) {
                Some(c) => lemma_strip_in_stages(c, a.drop_first(), b),
                None => {},
            }
        }
    }
}

/// Law: every tag kind that `lofty` lists is taken out of the stream: the
/// stripped stream is the content with the first listed kind taken out, then
/// the rest of the list taken out of what that left.
pub proof fn lemma_stripped_stream_every_kind(encoded: Seq<u8>)
    requires
        container_parses(encoded),
        tag_kinds(encoded).len() > 0,
        !(tag_kinds(encoded)[0] is Unknown),
    ensures
        stripped_stream(encoded) == (match tag_removed(encoded, tag_kinds(encoded)[0]) {
            Some(m) => strip_from(m, tag_kinds(encoded).drop_first()),
            None => None,
        }),
{
    let ks = tag_kinds(encoded);
    let k = ks[0];
    assert(ks =~= seq![k] + ks.drop_first());
    lemma_strip_in_stages(encoded, seq![k], ks.drop_first());
    lemma_strip_single_kind(encoded, k);
}

/// The audio file content `encoded` with every tag region that `lofty` finds
/// taken out, in the order it lists them; `None` when `lofty` cannot parse
/// the container or cannot take a tag out.
pub open spec fn stripped_stream(encoded: Seq<u8>) -> Option<Seq<u8>> {
    if container_parses(encoded) {
        strip_from(encoded, tag_kinds(encoded))
    } else {
        None
    }
}

/// Why the tags could not be taken out of an audio file.
pub enum StripFailure {
    /// `lofty` did not recognise or could not parse the container.
    Unparsed(String),
    /// `lofty` could not take a tag region out.
    TagKept(String),
}

/// Takes the tags out of the audio file content, as on a copy of the file:
/// the container is parsed and its tags listed, then each tag is taken out in
/// turn from what the previous step left.
fn strip_tags(encoded: &[u8]) -> (r: Result<Vec<u8>, StripFailure>)
    ensures
        r is Ok <==> stripped_stream(encoded@) is Some,
        r matches Ok(b) ==> stripped_stream(encoded@) == Some(b@),
        (r matches Err(StripFailure::Unparsed(_))) <==> !container_parses(encoded@),
{
    let kinds = match read_tag_kinds(encoded) {
        Err(e) => {
            return Err(StripFailure::Unparsed(e));
        },
        Ok(k) => k,
    };
    let mut content = vstd::slice::slice_to_vec(encoded);
    let mut i: usize = 0;
    assert(kinds@.skip(0) =~= kinds@);
    while i < kinds.len()
        invariant
            container_parses(encoded@),
            kinds@ == tag_kinds(encoded@),
            i <= kinds.len(),
            strip_from(encoded@, kinds@) == strip_from(content@, kinds@.skip(i as int)),
        decreases kinds.len() - i,
    {
        let ghost rest = kinds@.skip(i as int);
        assert(rest[0] == kinds@[i as int]);
        assert(rest.drop_first() =~= kinds@.skip(i + 1));
        let k = kinds[i];
        if k == TagKind::Unknown {
            return Err(StripFailure::TagKept(String::from_str("the tag kind is not known")));
        }
        match remove_tag(content.as_slice(), k) {
            Ok(c) => {
                content = c;
            },
            Err(e) => {
                return Err(StripFailure::TagKept(e));
            },
        }
        i = i + 1;
    }
    assert(kinds@.skip(kinds.len() as int) =~= Seq::<TagKind>::empty());
    Ok(content)
}

/// The digest that `std::hash::DefaultHasher::new` gives after being fed `bytes`.
pub uninterp spec fn stream_digest(bytes: Seq<u8>) -> u64;

/// Calls `DefaultHasher::new`, `Hasher::write` and `Hasher::finish`. Claimed:
/// the result is `stream_digest` of the bytes (the hasher is not seeded; std
/// leaves its algorithm free to change between releases, so digests are
/// compared only within one build). The three calls make one digest: the
/// name covers the whole stream, and std gives no view of a hasher's state
/// between them.
#[verifier::external_body]
fn digest(bytes: &[u8]) -> (h: u64)
    ensures
        h == stream_digest(bytes@),
{
    let mut hasher = std::hash::DefaultHasher::new();
    std::hash::Hasher::write(&mut hasher, bytes);
    std::hash::Hasher::finish(&hasher)
}

fn with_path(prefix: &str, path: &str, message: &str) -> (t: String)
    ensures
        t@ == prefix@ + path@ + ": "@ + message@,
{
    let mut t = String::from_str(prefix);
    t.append(path);
    t.append(": ");
    t.append(message);
    t
}

/// The encoding digest of the audio file at `path` whose content is
/// `encoded`: the digest of its content with the tag regions taken out, so
/// that copies that differ only in their tags get the same digest. A
/// container that cannot be parsed is an unsupported container; a tag that
/// cannot be taken out makes the file unreadable.
pub fn encoding_hash_of(path: &str, encoded: &[u8]) -> (r: Result<u64, SkipError>)
    ensures
        r is Ok <==> stripped_stream(encoded@) is Some,
        r matches Ok(h) ==> h == stream_digest(stripped_stream(encoded@)->0),
        r matches Err(e) ==> (e.reason == SkipReason::UnsupportedContainer && exists|m: Seq<char>|
            e.detail@ == "failed to parse audio container "@ + path@ + ": "@ + m) || (e.reason
            == SkipReason::Unreadable && exists|m: Seq<char>|
            e.detail@ == "failed to exclude tag region in "@ + path@ + ": "@ + m),
        r matches Err(e) ==> (e.reason == SkipReason::UnsupportedContainer <==> !container_parses(encoded@)),
        !container_parses(encoded@) ==> (r matches Err(e) && e.reason == SkipReason::UnsupportedContainer),
{
    match strip_tags(encoded) {
        Ok(stream) => Ok(digest(stream.as_slice())),
        Err(StripFailure::Unparsed(m)) => Err(
            SkipError::new(
                SkipReason::UnsupportedContainer,
                with_path("failed to parse audio container ", path, m.as_str()),
            ),
        ),
        Err(StripFailure::TagKept(m)) => Err(
            SkipError::new(SkipReason::Unreadable, with_path("failed to exclude tag region in ", path, m.as_str())),
        ),
    }
}

/// Member `b` is the one to keep: no member has higher fidelity, and no
/// member of the same quality comes before it in the path order.
pub open spec fn is_kept_member(members: Seq<Seq<char>>, qualities: Seq<AudioQuality>, b: int) -> bool {
    &&& 0 <= b < members.len()
    &&& forall|k: int| 0 <= k < members.len() ==> !higher_fidelity(#[trigger] qualities[k], qualities[b])
    &&& forall|k: int|
        0 <= k < members.len() && #[trigger] qualities[k] == qualities[b] ==> !path_before(members[k], members[b])
}

/// Chooses the member to keep among the members of a recording group, with
/// their qualities (in the same order): the highest fidelity wins, and among
/// members of equal quality the first in the path order. The others are
/// returned sorted by the path order.
pub fn keep_best(members: Vec<String>, qualities: &Vec<AudioQuality>) -> (r: (String, Vec<String>))
    requires
        members.len() >= 1,
        qualities.len() == members.len(),
    ensures
        exists|b: int|
            is_kept_member(views(members@), qualities@, b) && r.0@ == members@[b]@ && views(r.1@) == views(
                members@.remove(b),
            ).sort_by(path_order()),
{
    let ghost m = views(members@);
    let mut best: usize = 0;
    let mut i: usize = 1;
    proof {
        lemma_path_before_properties(m[0], m[0], m[0]);
    }
    while i < qualities.len()
        invariant
            qualities.len() == members.len(),
            m == views(members@),
            1 <= i <= qualities.len(),
            best < i,
            forall|k: int| 0 <= k < i ==> !higher_fidelity(#[trigger] qualities@[k], qualities@[best as int]),
            forall|k: int|
                0 <= k < i && #[trigger] qualities@[k] == qualities@[best as int] ==> !path_before(
                    m[k],
                    m[best as int],
                ),
        decreases qualities.len() - i,
    {
        let qi = qualities[i];
        let qb = qualities[best];
        let same = qi.lossless == qb.lossless && qi.bitrate == qb.bitrate;
        if outranks(&qi, &qb) {
            proof {
                assert forall|k: int|
                    0 <= k < i + 1 && #[trigger] qualities@[k] == qualities@[i as int] implies !path_before(
                    m[k],
                    m[i as int],
                ) by {
                    lemma_path_before_properties(m[k], m[k], m[k]);
                }
            }
            best = i;
        } else if same && path_before_exec(members[i].as_str(), members[best].as_str()) {
            proof {
                assert forall|k: int|
                    0 <= k < i + 1 && #[trigger] qualities@[k] == qualities@[i as int] implies !path_before(
                    m[k],
                    m[i as int],
                ) by {
                    if k < i {
                        lemma_path_before_properties(m[k], m[i as int], m[best as int]);
                    } else {
                        lemma_path_before_properties(m[k], m[k], m[k]);
                    }
                }
            }
            best = i;
        }
        i = i + 1;
    }
    let mut rest = members;
    let ghost all = rest@;
    let keep = rest.remove(best);
    assert(views(rest@) =~= views(all).remove(best as int));
    assert(views(all.remove(best as int)) =~= views(all).remove(best as int));
    let sorted = sort_paths(rest);
    assert(is_kept_member(views(all), qualities@, best as int));
    (keep, sorted)
}

} // verus!
