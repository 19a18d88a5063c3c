//! The names of the files that stand beside a source file.

use vstd::prelude::*;
use vstd::string::*;

verus! {

/// The name of a sidecar file: hidden, named after the source file, with a suffix. A source
/// file without a readable name counts as `qem`.
pub open spec fn sidecar_name(file_name: Option<Seq<char>>, suffix: Seq<char>) -> Seq<char> {
    let own = match file_name {
        Some(name) => if name.len() == 0 {
            "qem"@
        } else {
            name
        },
        None => "qem"@,
    };
    "."@ + own + suffix
}

/// The files beside a source file are hidden, and are not mixed up: different files have
/// different ones, and the line index of a file is not its edit log.
pub proof fn law_sidecar_names(a: Seq<char>, b: Seq<char>, suffix: Seq<char>)
    requires
        a.len() > 0,
        b.len() > 0,
    ensures
        sidecar_name(Some(a), suffix).len() == a.len() + suffix.len() + 1,
        sidecar_name(Some(a), suffix)[0] == '.',
        sidecar_name(Some(a), suffix).subrange(1, a.len() as int + 1) == a,
        sidecar_name(Some(a), suffix).skip(a.len() as int + 1) == suffix,
        sidecar_name(Some(a), suffix) == sidecar_name(Some(b), suffix) <==> a == b,
        sidecar_name(Some(a), ".qem.lineidx"@) != sidecar_name(Some(a), ".qem.editlog"@),
{
    reveal_strlit(".");
    reveal_strlit(".qem.lineidx");
    reveal_strlit(".qem.editlog");
    let x = sidecar_name(Some(a), suffix);
    let y = sidecar_name(Some(b), suffix);
    assert(x.subrange(1, a.len() as int + 1) =~= a);
    assert(x.skip(a.len() as int + 1) =~= suffix);
    assert(y.subrange(1, b.len() as int + 1) =~= b);
    let index = sidecar_name(Some(a), ".qem.lineidx"@);
    let log = sidecar_name(Some(a), ".qem.editlog"@);
    assert(index[a.len() as int + 6] == 'l');
    assert(log[a.len() as int + 6] == 'e');
}

fn name_with_suffix(file_name: Option<&str>, suffix: &str) -> (name: String)
    ensures
        name@ == sidecar_name(
            match file_name {
                Some(name) => Some(name@),
                None => None,
            },
            suffix@,
        ),
{
    let own = match file_name {
        Some(name) => if name.is_empty() {
            "qem"
        } else {
            name
        },
        None => "qem",
    };
    let mut name = String::from_str(".");
    name.append(own);
    name.append(suffix);
    name
}

/// The name of the line index of a file.
pub fn line_index_file_name(file_name: Option<&str>) -> (name: String)
    ensures
        name@ == sidecar_name(
            match file_name {
                Some(name) => Some(name@),
                None => None,
            },
            ".qem.lineidx"@,
        ),
{
    name_with_suffix(file_name, ".qem.lineidx")
}

/// The name of the edit log of a file.
pub fn editlog_file_name(file_name: Option<&str>) -> (name: String)
    ensures
        name@ == sidecar_name(
            match file_name {
                Some(name) => Some(name@),
                None => None,
            },
            ".qem.editlog"@,
        ),
{
    name_with_suffix(file_name, ".qem.editlog")
}

/// A time in nanoseconds as the sidecar files hold it: at most what 64 bits hold.
pub fn stored_time_ns(nanos: u128) -> (stored: u64)
    ensures
        stored == (if nanos <= u64::MAX {
            nanos as u64
        } else {
            u64::MAX
        }),
{
    if nanos <= u64::MAX as u128 {
        nanos as u64
    } else {
        u64::MAX
    }
}

} // verus!
