//! The frame of a saved catalog: what stands before the encoded data, and the
//! ways in which saving and loading fail.

use crate::text::{cat2, cat5, cat7, decimal, decimal_text};
use vstd::prelude::*;

verus! {

/// The bytes at the head of a saved catalog, which tell it from other files.
pub open spec fn magic() -> Seq<u8> {
    seq![0x4fu8, 0x4cu8, 0x41u8, 0x50u8]
}

/// The version of the format. It grows whenever the layout of the encoded data
/// changes.
pub const FORMAT_VERSION: u32 = 1;

/// The ways in which saving and loading a catalog fail. Errors of the system
/// and of the encoding come as the text that describes them.
#[derive(Debug)]
pub enum PersistError {
    Io(String),
    Encode(String),
    Decode(String),
    /// The file does not start as a catalog does.
    NotACatalog,
    /// The file was written in a newer format.
    UnsupportedVersion { found: u32, supported: u32 },
}

/// A failure with text as characters.
pub enum PersistModel {
    Io(Seq<char>),
    Encode(Seq<char>),
    Decode(Seq<char>),
    NotACatalog,
    UnsupportedVersion { found: u32, supported: u32 },
}

impl View for PersistError {
    type V = PersistModel;

    open spec fn view(&self) -> PersistModel {
        match self {
            PersistError::Io(e) => PersistModel::Io(e@),
            PersistError::Encode(e) => PersistModel::Encode(e@),
            PersistError::Decode(e) => PersistModel::Decode(e@),
            PersistError::NotACatalog => PersistModel::NotACatalog,
            PersistError::UnsupportedVersion { found, supported } =>
                PersistModel::UnsupportedVersion { found: *found, supported: *supported },
        }
    }
}

impl PersistModel {
    /// The failure in words.
    pub open spec fn shown(self) -> Seq<char> {
        match self {
            PersistModel::Io(e) => "I/O error: "@ + e,
            PersistModel::Encode(e) => "Could not encode catalog: "@ + e,
            PersistModel::Decode(e) => "Could not decode catalog: "@ + e,
            PersistModel::NotACatalog => "File is not an OLAP catalog."@,
            PersistModel::UnsupportedVersion { found, supported } => "Catalog format v"@ + decimal(
                found as nat,
            ) + " is newer than this binary supports (v"@ + decimal(supported as nat)
                + "). Upgrade to open it."@,
        }
    }
}

impl PersistError {
    /// The failure in words.
    pub fn shown(&self) -> (r: String)
        ensures
            r@ == self@.shown(),
    {
        match self {
            PersistError::Io(e) => cat2("I/O error: ", e.as_str()),
            PersistError::Encode(e) => cat2("Could not encode catalog: ", e.as_str()),
            PersistError::Decode(e) => cat2("Could not decode catalog: ", e.as_str()),
            PersistError::NotACatalog => "File is not an OLAP catalog.".to_string(),
            PersistError::UnsupportedVersion { found, supported } => cat5(
                "Catalog format v",
                decimal_text(*found as u128).as_str(),
                " is newer than this binary supports (v",
                decimal_text(*supported as u128).as_str(),
                "). Upgrade to open it.",
            ),
        }
    }
}

/// Four bytes as a number, the least first.
pub open spec fn number_in(bytes: Seq<u8>) -> int {
    bytes[0] + 0x100 * bytes[1] + 0x10000 * bytes[2] + 0x1000000 * bytes[3]
}

/// A saved catalog: the head and the encoded data.
pub open spec fn framed(payload: Seq<u8>) -> Seq<u8> {
    magic() + seq![1u8, 0u8, 0u8, 0u8] + payload
}

/// The encoded data of a saved catalog, if the file is one that can be read.
pub open spec fn unframed(bytes: Seq<u8>) -> Result<Seq<u8>, PersistModel> {
    if bytes.len() < 8 || bytes.take(4) != magic() {
        Err(PersistModel::NotACatalog)
    } else {
        let version = number_in(bytes.subrange(4, 8));
        if version > FORMAT_VERSION {
            Err(
                PersistModel::UnsupportedVersion {
                    found: version as u32,
                    supported: FORMAT_VERSION,
                },
            )
        } else {
            Ok(bytes.skip(8))
        }
    }
}

/// What was framed comes out of the frame.
pub proof fn frame_then_unframe(payload: Seq<u8>)
    ensures
        unframed(framed(payload)) == Ok::<Seq<u8>, PersistModel>(payload),
{
    let bytes = framed(payload);
    assert(bytes.take(4) =~= magic());
    assert(bytes.subrange(4, 8) =~= seq![1u8, 0u8, 0u8, 0u8]);
    assert(bytes.skip(8) =~= payload);
}

fn push_all(out: &mut Vec<u8>, bytes: &[u8], from: usize)
    requires
        from <= bytes@.len(),
    ensures
        final(out)@ == old(out)@ + bytes@.skip(from as int),
{
    let ghost start = out@;
    let ghost more = bytes@.skip(from as int);
    let mut i: usize = from;
    assert(start + more.take(0) =~= start);
    while i < bytes.len()
        invariant
            from <= i <= bytes@.len(),
            more == bytes@.skip(from as int),
            out@ == start + more.take(i - from),
        decreases bytes@.len() - i,
    {
        out.push(bytes[i]);
        assert(out@ =~= start + more.take(i + 1 - from));
        i += 1;
    }
    assert(more.take(i - from) =~= more);
}

/// Puts the head before the encoded data.
pub fn frame(payload: &[u8]) -> (r: Vec<u8>)
    ensures
        r@ == framed(payload@),
{
    let mut out: Vec<u8> = Vec::new();
    out.push(0x4f);
    out.push(0x4c);
    out.push(0x41);
    out.push(0x50);
    out.push(1);
    out.push(0);
    out.push(0);
    out.push(0);
    push_all(&mut out, payload, 0);
    assert(out@ =~= framed(payload@));
    out
}

/// Checks the head, before anything is decoded, and takes it off.
pub fn unframe(bytes: &[u8]) -> (r: Result<Vec<u8>, PersistError>)
    ensures
        match r {
            Ok(payload) => unframed(bytes@) == Ok::<Seq<u8>, PersistModel>(payload@),
            Err(e) => unframed(bytes@) == Err::<Seq<u8>, PersistModel>(e@),
        },
{
    if bytes.len() < 8 {
        return Err(PersistError::NotACatalog);
    }
    let known = bytes[0] == 0x4f && bytes[1] == 0x4c && bytes[2] == 0x41 && bytes[3] == 0x50;
    proof {
        let head = bytes@.take(4);
        if known {
            assert(head =~= magic());
        } else {
            assert(head[0] == bytes@[0] && head[1] == bytes@[1] && head[2] == bytes@[2] && head[3]
                == bytes@[3]);
            assert(magic()[0] == 0x4f && magic()[1] == 0x4c && magic()[2] == 0x41 && magic()[3]
                == 0x50);
            assert(head != magic());
        }
    }
    if !known {
        return Err(PersistError::NotACatalog);
    }
    let version: u32 = bytes[4] as u32 + 0x100 * bytes[5] as u32 + 0x10000 * bytes[6] as u32
        + 0x1000000 * bytes[7] as u32;
    assert(version == number_in(bytes@.subrange(4, 8)));
    if version > FORMAT_VERSION {
        return Err(
            PersistError::UnsupportedVersion { found: version, supported: FORMAT_VERSION },
        );
    }
    let mut out: Vec<u8> = Vec::new();
    push_all(&mut out, bytes, 8);
    assert(out@ =~= bytes@.skip(8));
    Ok(out)
}

/// The name of the file into which a catalog is written before it takes the
/// place of `file_name`.
pub fn temp_file_name(file_name: &str, process: u32, count: u64) -> (r: String)
    ensures
        r@ == "."@ + file_name@ + "."@ + decimal(process as nat) + "."@ + decimal(count as nat)
            + ".tmp"@,
{
    cat7(
        ".",
        file_name,
        ".",
        decimal_text(process as u128).as_str(),
        ".",
        decimal_text(count as u128).as_str(),
        ".tmp",
    )
}

/// A file is read only if it begins with the mark of a catalog, and then whatever follows
/// the number of its version is the data, unless the version is a later one.
pub proof fn only_catalogs_are_read(bytes: Seq<u8>, version: Seq<u8>, payload: Seq<u8>)
    requires
        version.len() == 4,
    ensures
        bytes.len() < 8 || !(exists|rest: Seq<u8>| bytes == #[trigger] (magic() + rest))
            ==> unframed(bytes) == Err::<Seq<u8>, PersistModel>(PersistModel::NotACatalog),
        number_in(version) <= FORMAT_VERSION ==> unframed(magic() + version + payload) == Ok::<
            Seq<u8>,
            PersistModel,
        >(payload),
        number_in(version) > FORMAT_VERSION ==> (unframed(magic() + version + payload) matches Err(
            PersistModel::UnsupportedVersion { found, supported },
        ) && found == number_in(version) && supported == FORMAT_VERSION),
{
    let whole = magic() + version + payload;
    assert(whole.take(4) =~= magic());
    assert(whole.subrange(4, 8) =~= version);
    assert(whole.skip(8) =~= payload);
    if bytes.len() >= 8 && bytes.take(4) == magic() {
        assert(bytes =~= magic() + bytes.skip(4));
    }
}

} // verus!
