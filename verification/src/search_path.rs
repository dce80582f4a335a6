//! Composition of the shared-library search path: the directories named by
//! `LD_LIBRARY_PATH`, in the order given, followed by the loader's default
//! directories under the sysroot.
//!
//! `DT_RPATH` and `DT_RUNPATH` are acknowledged layers of the real loader's
//! search order and are deliberately omitted here; the summary parameter is
//! reserved for that later work.

use crate::summarize::ElfSummary;
use vstd::prelude::*;
use vstd::string::StrSliceExecFns;
use vstd::string::StringExecFns;

verus! {

/// Splits a non-empty character sequence at every colon, keeping empty
/// pieces; the result always holds at least one piece.
pub open spec fn spec_split1(s: Seq<char>) -> Seq<Seq<char>>
    decreases s.len(),
{
    if s.len() == 0 {
        seq![Seq::<char>::empty()]
    } else if s[0] == ':' {
        seq![Seq::<char>::empty()] + spec_split1(s.skip(1))
    } else {
        let r = spec_split1(s.skip(1));
        seq![seq![s[0]] + r[0]] + r.skip(1)
    }
}

/// The colon-separated pieces of a search-path string; an empty string
/// contributes nothing.
pub open spec fn spec_split_paths(s: Seq<char>) -> Seq<Seq<char>> {
    if s.len() == 0 {
        Seq::empty()
    } else {
        spec_split1(s)
    }
}

pub proof fn lemma_split1_nonempty(s: Seq<char>)
    ensures
        spec_split1(s).len() >= 1,
    decreases s.len(),
{
    if s.len() != 0 && s[0] != ':' {
        lemma_split1_nonempty(s.skip(1));
    }
}

/// Splitting a sequence whose first colon stands at `p`: the piece before
/// `p` comes first, and the rest splits on its own. When no colon exists,
/// the whole sequence is the only piece.
pub proof fn lemma_split1_at_colon(s: Seq<char>, p: int)
    requires
        0 <= p <= s.len(),
        forall|j: int| 0 <= j < p ==> s[j] != ':',
        p < s.len() ==> s[p] == ':',
    ensures
        p == s.len() ==> spec_split1(s) =~~= seq![s],
        p < s.len() ==> spec_split1(s) =~~= seq![s.subrange(0, p)] + spec_split1(s.skip(p + 1)),
    decreases p,
{
    lemma_split1_nonempty(s.skip(1));
    if p == 0 {
        if s.len() == 0 {
            assert(spec_split1(s) =~~= seq![s]);
        } else if s[0] == ':' {
            assert(s.skip(0int + 1) =~= s.skip(1));
            assert(s.subrange(0, 0) =~= Seq::<char>::empty());
            assert(spec_split1(s) =~~= seq![s.subrange(0, 0)] + spec_split1(s.skip(1)));
        }
    } else {
        let t = s.skip(1);
        lemma_split1_at_colon(t, p - 1);
        let r = spec_split1(t);
        if p == s.len() {
            assert(r =~~= seq![t]);
            assert(seq![s[0]] + r[0] =~= s);
            assert(spec_split1(s) =~~= seq![s]);
        } else {
            assert(t[p - 1] == s[p]);
            assert(r =~~= seq![t.subrange(0, p - 1)] + spec_split1(t.skip(p)));
            assert(seq![s[0]] + r[0] =~= s.subrange(0, p));
            assert(r.skip(1) =~~= spec_split1(t.skip(p)));
            assert(t.skip(p) =~= s.skip(p + 1));
            assert(spec_split1(s) =~~= seq![s.subrange(0, p)] + spec_split1(s.skip(p + 1)));
        }
    }
}

/// Splits a search-path string at every colon, as the platform convention
/// for `LD_LIBRARY_PATH` does; an empty string yields no directories.
#[verifier::loop_isolation(false)]
pub fn split_search_paths(s: &String) -> (r: Vec<String>)
    ensures
        r@.map_values(|p: String| p@) == spec_split_paths(s@),
{
    let st = s.as_str();
    let n = st.unicode_len();
    let mut parts: Vec<String> = Vec::new();
    if n == 0 {
        assert(parts@.map_values(|p: String| p@) =~~= spec_split_paths(s@));
        return parts;
    }
    let mut start: usize = 0;
    let mut i: usize = 0;
    proof {
        assert(s@.skip(0) =~= s@);
    }
    loop
        invariant
            start <= i <= n,
            forall|j: int| start <= j < i ==> s@[j] != ':',
            spec_split1(s@) =~~= parts@.map_values(|p: String| p@) + spec_split1(
                s@.skip(start as int),
            ),
        decreases n - i,
    {
        if i == n {
            let piece = String::from_str(st.substring_char(start, i));
            proof {
                let rem = s@.skip(start as int);
                lemma_split1_at_colon(rem, rem.len() as int);
                assert(piece@ =~= rem);
                assert((parts@.map_values(|p: String| p@)).push(piece@) =~~= parts@.map_values(
                    |p: String| p@,
                ) + seq![rem]);
            }
            let ghost old_map = parts@.map_values(|p: String| p@);
            parts.push(piece);
            proof {
                assert(parts@.map_values(|p: String| p@) =~~= old_map.push(s@.skip(start as int)));
                assert(parts@.map_values(|p: String| p@) =~~= spec_split1(s@));
            }
            return parts;
        }
        let c = st.get_char(i);
        if c == ':' {
            let piece = String::from_str(st.substring_char(start, i));
            proof {
                let rem = s@.skip(start as int);
                lemma_split1_at_colon(rem, i - start);
                assert(piece@ =~= rem.subrange(0, i - start));
                assert(rem.skip(i - start + 1) =~= s@.skip(i + 1));
            }
            let ghost old_map = parts@.map_values(|p: String| p@);
            parts.push(piece);
            proof {
                assert(parts@.map_values(|p: String| p@) =~~= old_map.push(
                    s@.skip(start as int).subrange(0, i - start),
                ));
                assert(parts@.map_values(|p: String| p@) + spec_split1(s@.skip(i + 1)) =~~= (
                old_map + (seq![s@.skip(start as int).subrange(0, i - start)] + spec_split1(
                    s@.skip(i + 1),
                ))));
            }
            start = i + 1;
        }
        i = i + 1;
    }
}

/// Joining a directory and a file name: a single separator stands between
/// them, and an empty directory leaves the name alone.
pub open spec fn spec_join_path(dir: Seq<char>, name: Seq<char>) -> Seq<char> {
    if dir.len() == 0 {
        name
    } else if dir[dir.len() - 1] == '/' {
        dir + name
    } else {
        dir + seq!['/'] + name
    }
}

/// Joins a directory and a file name with a path separator.
pub fn join_path(dir: &String, name: &String) -> (r: String)
    ensures
        r@ == spec_join_path(dir@, name@),
{
    let d = dir.as_str();
    let n = d.unicode_len();
    if n == 0 {
        return name.clone();
    }
    if d.get_char(n - 1) == '/' {
        let mut out = dir.clone();
        out.append(name.as_str());
        return out;
    }
    let mut out = dir.clone();
    out.append("/");
    out.append(name.as_str());
    proof {
        reveal_strlit("/");
        assert("/"@ =~= seq!['/']);
        assert(out@ =~= spec_join_path(dir@, name@));
    }
    out
}

/// The loader's default directories under a sysroot, in priority order.
pub open spec fn spec_default_dirs(sysroot: Seq<char>) -> Seq<Seq<char>> {
    seq![
        spec_join_path(sysroot, "lib"@),
        spec_join_path(sysroot, "lib64"@),
        spec_join_path(sysroot, "usr/lib"@),
        spec_join_path(sysroot, "usr/lib64"@),
    ]
}

/// The full search path: the pieces of `LD_LIBRARY_PATH` (when set), then
/// the default directories under the sysroot.
pub open spec fn spec_search_path(sysroot: Seq<char>, ld_library_path: Option<Seq<char>>) -> Seq<
    Seq<char>,
> {
    (match ld_library_path {
        Option::None => Seq::<Seq<char>>::empty(),
        Option::Some(v) => spec_split_paths(v),
    }) + spec_default_dirs(sysroot)
}

/// Computes the shared-library search path from system defaults and the
/// value of `LD_LIBRARY_PATH`, handed in by the caller. The summary of the
/// root image is reserved for future `DT_RUNPATH` support and is not yet
/// consulted.
pub fn search_path(sysroot: &String, ld_library_path: &Option<String>, _summ: &ElfSummary) -> (r:
    Vec<String>)
    ensures
        r@.map_values(|p: String| p@) == spec_search_path(
            sysroot@,
            match ld_library_path {
                Option::None => Option::None,
                Option::Some(v) => Option::Some(v@),
            },
        ),
{
    let mut paths: Vec<String> = match ld_library_path {
        Option::None => Vec::new(),
        Option::Some(v) => split_search_paths(v),
    };
    let ghost ld_part = paths@.map_values(|p: String| p@);
    let d1 = join_path(sysroot, &String::from_str("lib"));
    let d2 = join_path(sysroot, &String::from_str("lib64"));
    let d3 = join_path(sysroot, &String::from_str("usr/lib"));
    let d4 = join_path(sysroot, &String::from_str("usr/lib64"));
    paths.push(d1);
    paths.push(d2);
    paths.push(d3);
    paths.push(d4);
    proof {
        assert(paths@.map_values(|p: String| p@) =~~= ld_part + spec_default_dirs(sysroot@));
    }
    paths
}

} // verus!
