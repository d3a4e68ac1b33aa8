use crate::errors::UnpackError;
use crate::paths::{is_sep, sanitize_name, sanitize_spec, BACKSLASH, DOT, SLASH};
use vstd::prelude::*;

verus! {

/// `g`
pub const LOWER_G: u8 = 103;

/// `z`
pub const LOWER_Z: u8 = 122;

/// Whether a file name component carries exactly the `gz` extension: it
/// ends in `.gz` and has at least one byte of stem before the dot.
pub open spec fn has_gz_ext(c: Seq<u8>) -> bool {
    &&& c.len() >= 4
    &&& c[c.len() - 3] == DOT
    &&& c[c.len() - 2] == LOWER_G
    &&& c[c.len() - 1] == LOWER_Z
}

/// An entry writes no file when nothing of its name survives sanitization
/// or when the stored name is a bare directory marker (it ends in a
/// separator).
pub open spec fn skip_spec(name: Seq<u8>) -> bool {
    sanitize_spec(name).len() == 0 || (name.len() > 0 && is_sep(name.last()))
}

/// Whether an entry decodes as gzip: it is written at all and its final
/// surviving component carries the `gz` extension.
pub open spec fn gz_spec(name: Seq<u8>) -> bool {
    !skip_spec(name) && has_gz_ext(sanitize_spec(name).last())
}

/// The target path components relative to the destination root: the
/// sanitized name, with the `.gz` suffix cut from the final component when
/// the entry decodes as gzip.
pub open spec fn target_spec(name: Seq<u8>) -> Seq<Seq<u8>> {
    let cs = sanitize_spec(name);
    if gz_spec(name) {
        cs.update(cs.len() - 1, cs.last().take(cs.last().len() - 3))
    } else {
        cs
    }
}

/// How one entry is materialized, decided by its stored name alone.
pub enum EntryPlan {
    /// Nothing is written: a directory marker, or a name with no safe part.
    Skip,
    /// The raw bytes go verbatim to the file named by `components`.
    Copy { components: Vec<Vec<u8>> },
    /// The bytes are a gzip stream; the decoded bytes go to `components`.
    Decompress { components: Vec<Vec<u8>> },
}

/// Decode dispatch by extension: directory markers and fully unsafe names
/// are skipped; a surviving name whose final component ends in `.gz` is
/// planned as a gzip decode with that suffix cut off; every other
/// surviving name is planned as a verbatim copy.
pub fn plan_entry(stored_name: &[u8]) -> (r: EntryPlan)
    ensures
        r is Skip <==> skip_spec(stored_name@),
        r matches EntryPlan::Copy { components } ==> {
            &&& !gz_spec(stored_name@)
            &&& components@.len() == target_spec(stored_name@).len()
            &&& forall|j: int|
                0 <= j < components@.len() ==> (#[trigger] components@[j])@ == target_spec(
                    stored_name@,
                )[j]
        },
        r matches EntryPlan::Decompress { components } ==> {
            &&& gz_spec(stored_name@)
            &&& components@.len() == target_spec(stored_name@).len()
            &&& forall|j: int|
                0 <= j < components@.len() ==> (#[trigger] components@[j])@ == target_spec(
                    stored_name@,
                )[j]
        },
{
    let mut components = sanitize_name(stored_name);
    if components.len() == 0 {
        return EntryPlan::Skip;
    }
    if stored_name.len() > 0 {
        let last_byte = stored_name[stored_name.len() - 1];
        if last_byte == SLASH || last_byte == BACKSLASH {
            return EntryPlan::Skip;
        }
    }
    let li = components.len() - 1;
    let ghost cs = sanitize_spec(stored_name@);
    proof {
        assert(components@[li as int]@ == cs[li as int]);
        assert(cs.last() == cs[li as int]);
    }
    let last_len = components[li].len();
    let is_gz = last_len >= 4 && {
        let last_ref = &components[li];
        last_ref[last_len - 3] == DOT && last_ref[last_len - 2] == LOWER_G && last_ref[last_len
            - 1] == LOWER_Z
    };
    if is_gz {
        let mut last = components.pop().unwrap();
        last.truncate(last_len - 3);
        components.push(last);
        EntryPlan::Decompress { components }
    } else {
        EntryPlan::Copy { components }
    }
}

/// What flate2's gzip decode yields for given bytes: the decompressed
/// bytes of a well-formed stream, or nothing for an invalid one. The
/// outcome depends on the input bytes alone.
pub uninterp spec fn gunzip_of(data: Seq<u8>) -> Option<Seq<u8>>;

/// Relies on flate2::read::GzDecoder: reading it to the end yields the
/// decompressed bytes of a well-formed gzip stream, and fails on a
/// malformed one (bad header, truncated stream, bad checksum).
#[verifier::external_body]
fn gunzip(data: &[u8]) -> (r: Result<Vec<u8>, UnpackError>)
    ensures
        r is Ok <==> gunzip_of(data@) is Some,
        r matches Ok(out) ==> Some(out@) == gunzip_of(data@),
        r matches Err(e) ==> e == UnpackError::CorruptEntry,
{
    let mut decoder = flate2::read::GzDecoder::new(data);
    let mut out = Vec::new();
    match std::io::Read::read_to_end(&mut decoder, &mut out) {
        Ok(_) => Ok(out),
        Err(_) => Err(UnpackError::CorruptEntry),
    }
}

/// One materialized file: its path components under the destination root
/// and the bytes to write there.
pub struct ExtractedFile {
    /// The file's path relative to the destination root, one component per
    /// directory level.
    pub components: Vec<Vec<u8>>,
    /// The bytes the file holds.
    pub data: Vec<u8>,
}

/// Carries out a plan on an entry's raw bytes: a skipped plan writes
/// nothing, a copy hands the bytes through unchanged, and a gzip plan
/// decodes them, failing with `CorruptEntry` exactly when the stream is
/// invalid.
pub fn decode_entry(plan: EntryPlan, data: Vec<u8>) -> (r: Result<
    Option<ExtractedFile>,
    UnpackError,
>)
    ensures
        plan is Skip ==> (r matches Ok(f) && f is None),
        plan matches EntryPlan::Copy { components } ==> (r matches Ok(f) && f matches Some(file)
            && file.components == components && file.data == data),
        plan matches EntryPlan::Decompress { components } ==> {
            &&& (r is Ok <==> gunzip_of(data@) is Some)
            &&& (r matches Ok(f) ==> (f matches Some(file) && file.components == components
                && Some(file.data@) == gunzip_of(data@)))
            &&& (r matches Err(e) ==> e == UnpackError::CorruptEntry)
        },
{
    match plan {
        EntryPlan::Skip => Ok(None),
        EntryPlan::Copy { components } => Ok(Some(ExtractedFile { components, data })),
        EntryPlan::Decompress { components } => match gunzip(data.as_slice()) {
            Ok(decoded) => Ok(Some(ExtractedFile { components, data: decoded })),
            Err(e) => Err(e),
        },
    }
}

/// The total of the workers' success counts, failures counting zero.
pub open spec fn ok_total(outcomes: Seq<Result<usize, UnpackError>>) -> int
    decreases outcomes.len(),
{
    if outcomes.len() == 0 {
        0
    } else {
        ok_total(outcomes.drop_last()) + match outcomes.last() {
            Ok(n) => n as int,
            Err(_) => 0,
        }
    }
}

/// The first failure among the workers' outcomes, in worker order.
pub open spec fn first_failure(outcomes: Seq<Result<usize, UnpackError>>) -> Option<
    UnpackError,
>
    decreases outcomes.len(),
{
    if outcomes.len() == 0 {
        None
    } else {
        match outcomes[0] {
            Err(e) => Some(e),
            Ok(_) => first_failure(outcomes.drop_first()),
        }
    }
}

/// A prefix of the outcomes never counts more successes than the whole.
proof fn lemma_ok_total_take_le(outcomes: Seq<Result<usize, UnpackError>>, i: int)
    requires
        0 <= i <= outcomes.len(),
    ensures
        ok_total(outcomes.take(i)) <= ok_total(outcomes),
    decreases outcomes.len(),
{
    if i == outcomes.len() {
        assert(outcomes.take(i) =~= outcomes);
    } else {
        assert(outcomes.drop_last().take(i) =~= outcomes.take(i));
        lemma_ok_total_take_le(outcomes.drop_last(), i);
    }
}

/// Joins the workers' results after all have finished: the first failure,
/// in worker order, fails the whole run; otherwise the run reports the
/// summed success count.
pub fn aggregate_outcomes(outcomes: &Vec<Result<usize, UnpackError>>) -> (r: Result<
    usize,
    UnpackError,
>)
    requires
        ok_total(outcomes@) <= usize::MAX,
    ensures
        first_failure(outcomes@) matches Some(e) ==> r == Err::<usize, UnpackError>(e),
        first_failure(outcomes@) is None ==> (r matches Ok(n) && n as int == ok_total(outcomes@)),
{
    let mut total: usize = 0;
    let mut i: usize = 0;
    proof {
        assert(outcomes@.skip(0) =~= outcomes@);
        assert(outcomes@.take(0) =~= Seq::<Result<usize, UnpackError>>::empty());
    }
    while i < outcomes.len()
        invariant
            0 <= i <= outcomes@.len(),
            total as int == ok_total(outcomes@.take(i as int)),
            first_failure(outcomes@) == first_failure(outcomes@.skip(i as int)),
            ok_total(outcomes@) <= usize::MAX,
        decreases outcomes@.len() - i,
    {
        proof {
            assert(outcomes@.take(i + 1).drop_last() =~= outcomes@.take(i as int));
            assert(outcomes@.take(i + 1).last() == outcomes@[i as int]);
            assert(outcomes@.skip(i as int).drop_first() =~= outcomes@.skip(i + 1));
            assert(outcomes@.skip(i as int)[0] == outcomes@[i as int]);
            lemma_ok_total_take_le(outcomes@, i + 1);
        }
        match outcomes[i] {
            Ok(n) => {
                total = total + n;
            },
            Err(e) => {
                return Err(e);
            },
        }
        i += 1;
    }
    proof {
        assert(outcomes@.take(outcomes@.len() as int) =~= outcomes@);
        assert(outcomes@.skip(outcomes@.len() as int) =~= Seq::<
            Result<usize, UnpackError>,
        >::empty());
    }
    Ok(total)
}

} // verus!
