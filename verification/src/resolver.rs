use vstd::prelude::*;
use vstd::string::StrSliceExecFns;
use vstd::string::StringExecFns;
use crate::error::StoreError;

verus! {

/// A resolved entry location: the logical id, the version token, and the
/// physical path `<root>/<id>~<version>` the pair lives under.
#[derive(Debug)]
pub struct EntryLocation {
    pub id: String,
    pub version: String,
    pub path: String,
}

/// `id` with one leading path separator removed: a leading separator
/// means store-root-relative, not absolute.
pub open spec fn spec_strip_slash(id: Seq<char>) -> Seq<char> {
    if id.len() > 0 && id[0] == '/' {
        id.subrange(1, id.len() as int)
    } else {
        id
    }
}

/// The index of the last `~` in `s`, if there is one.
pub open spec fn spec_last_tilde(s: Seq<char>) -> Option<int>
    decreases s.len(),
{
    if s.len() == 0 {
        None
    } else if s.last() == '~' {
        Some(s.len() - 1)
    } else {
        spec_last_tilde(s.drop_last())
    }
}

/// The id part and version part of an id string carrying a `~`-delimited
/// version suffix; `None` when it carries none.
pub open spec fn spec_split_id_version(s: Seq<char>) -> Option<(Seq<char>, Seq<char>)> {
    match spec_last_tilde(s) {
        Some(i) => Some((s.subrange(0, i), s.subrange(i + 1, s.len() as int))),
        None => None,
    }
}

/// The physical path a resolved (id, version) pair lives under: the id
/// here is already store-root-relative.
pub open spec fn spec_entry_path(root: Seq<char>, id: Seq<char>, version: Seq<char>) -> Seq<char> {
    root + seq!['/'] + id + seq!['~'] + version
}

/// The last `~`, where there is one, indexes a `~` inside the sequence.
pub proof fn lemma_last_tilde_in_range(s: Seq<char>)
    ensures
        match spec_last_tilde(s) {
            Some(i) => 0 <= i < s.len() && s[i] == '~',
            None => true,
        },
    decreases s.len(),
{
    if s.len() > 0 && s.last() != '~' {
        lemma_last_tilde_in_range(s.drop_last());
    }
}

/// The id and version `resolve` settles on: an explicit version wins; with
/// none, the version is recovered from a `~` suffix of the id; with
/// neither, resolution fails.
pub open spec fn spec_resolve_parts(id: Seq<char>, version: Option<Seq<char>>) -> Option<
    (Seq<char>, Seq<char>),
> {
    match version {
        Some(v) => Some((spec_strip_slash(id), v)),
        None => match spec_split_id_version(id) {
            Some((base, v)) => Some((spec_strip_slash(base), v)),
            None => None,
        },
    }
}

/// Finds the last `~` in `s`, if any.
#[verifier::loop_isolation(false)]
fn find_last_tilde(s: &str) -> (r: Option<usize>)
    ensures
        match r {
            Some(n) => spec_last_tilde(s@) == Some(n as int),
            None => spec_last_tilde(s@) is None,
        },
{
    let len = s.unicode_len();
    let mut last: Option<usize> = None;
    let mut i: usize = 0;
    while i < len
        invariant
            len == s@.len(),
            i <= len,
            match last {
                Some(n) => spec_last_tilde(s@.subrange(0, i as int)) == Some(n as int),
                None => spec_last_tilde(s@.subrange(0, i as int)) is None,
            },
        decreases len - i,
    {
        let c = s.get_char(i);
        proof {
            assert(s@.subrange(0, i + 1).drop_last() =~= s@.subrange(0, i as int));
            assert(s@.subrange(0, i + 1).last() == s@[i as int]);
        }
        if c == '~' {
            last = Some(i);
        }
        i = i + 1;
    }
    proof {
        assert(s@.subrange(0, len as int) =~= s@);
    }
    last
}

/// Strips one leading `/` from `id`.
fn strip_slash(id: &str) -> (r: &str)
    ensures
        r@ == spec_strip_slash(id@),
{
    let len = id.unicode_len();
    if len > 0 && id.get_char(0) == '/' {
        id.substring_char(1, len)
    } else {
        id
    }
}

/// Builds `<root>/<id>~<version>` from an already-stripped id.
fn build_path(root: &str, id: &str, version: &str) -> (r: String)
    ensures
        r@ == spec_entry_path(root@, id@, version@),
{
    proof {
        reveal_strlit("/");
        reveal_strlit("~");
        assert("/"@ =~= seq!['/']);
        assert("~"@ =~= seq!['~']);
    }
    let mut p = root.to_owned();
    p.append("/");
    p.append(id);
    p.append("~");
    p.append(version);
    p
}

/// Maps a logical id and an optional version to the physical location
/// `<root>/<id>~<version>`.
///
/// One leading path separator of the id is stripped.  When no version is
/// given it is recovered from a `~`-delimited suffix of the id; when the
/// id carries none either, resolution fails with `NoVersion`.  This
/// function is pure: it touches nothing but its arguments.
pub fn resolve(root: &str, id: &str, version: Option<&str>) -> (r: Result<
    EntryLocation,
    StoreError,
>)
    ensures
        match r {
            Ok(loc) => spec_resolve_parts(id@, match version {
                Some(v) => Some(v@),
                None => None,
            }) == Some((loc.id@, loc.version@)) && loc.path@ == spec_entry_path(
                root@,
                loc.id@,
                loc.version@,
            ),
            Err(e) => (e matches StoreError::NoVersion) && version is None
                && spec_split_id_version(id@) is None,
        },
{
    match version {
        Some(v) => {
            let sid = strip_slash(id);
            let path = build_path(root, sid, v);
            Ok(EntryLocation { id: sid.to_owned(), version: v.to_owned(), path })
        },
        None => {
            match find_last_tilde(id) {
                Some(n) => {
                    proof {
                        lemma_last_tilde_in_range(id@);
                    }
                    let len = id.unicode_len();
                    let base = id.substring_char(0, n);
                    let ver = id.substring_char(n + 1, len);
                    let sid = strip_slash(base);
                    let path = build_path(root, sid, ver);
                    Ok(EntryLocation { id: sid.to_owned(), version: ver.to_owned(), path })
                },
                None => Err(StoreError::NoVersion),
            }
        },
    }
}

} // verus!
