//! Where the dictionaries and the user data are looked for.
//!
//! The directory of the user data and the system search path come from the
//! environment; the places they give are kept here as strings.

use vstd::prelude::*;

verus! {

/// The pieces of `s` between the separators, as `str::split` gives them:
/// always at least one, possibly empty.
pub open spec fn split_on(s: Seq<char>, sep: char) -> Seq<Seq<char>>
    decreases s.len(),
{
    if s.len() == 0 {
        seq![Seq::<char>::empty()]
    } else {
        let rest = split_on(s.drop_last(), sep);
        if s.last() == sep {
            rest.push(Seq::empty())
        } else {
            rest.update(rest.len() - 1, rest.last().push(s.last()))
        }
    }
}

proof fn lemma_split_nonempty(s: Seq<char>, sep: char)
    ensures
        split_on(s, sep).len() >= 1,
    decreases s.len(),
{
    if s.len() > 0 {
        lemma_split_nonempty(s.drop_last(), sep);
    }
}

/// The views of a list of strings.
pub open spec fn strings_view(v: Seq<String>) -> Seq<Seq<char>> {
    v.map_values(|s: String| s@)
}

/// Splits `s` on `sep` and appends the pieces to `out`.
fn push_pieces(s: &str, sep: char, out: &mut Vec<String>)
    ensures
        strings_view(final(out)@) == strings_view(old(out)@) + split_on(s@, sep),
{
    let ghost base = strings_view(out@);
    let n = s.unicode_len();
    let mut start: usize = 0;
    let mut i: usize = 0;
    proof {
        assert(s@.take(0) =~= Seq::<char>::empty());
        assert(s@.subrange(0, 0) =~= Seq::<char>::empty());
    }
    while i < n
        invariant
            n == s@.len(),
            0 <= start <= i <= n,
            strings_view(out@) + seq![s@.subrange(start as int, i as int)] == base + split_on(
                s@.take(i as int),
                sep,
            ),
        decreases n - i,
    {
        let c = s.get_char(i);
        let ghost prev = strings_view(out@);
        proof {
            assert(s@.take(i + 1).drop_last() =~= s@.take(i as int));
            assert(s@.take(i + 1).last() == c);
            lemma_split_nonempty(s@.take(i as int), sep);
        }
        let ghost piece = s@.subrange(start as int, i as int);
        let ghost rest = split_on(s@.take(i as int), sep);
        if c == sep {
            let p = s.substring_char(start, i);
            out.push(p.to_owned());
            proof {
                assert(strings_view(out@) =~= prev.push(piece));
                assert(s@.subrange(i + 1, i + 1) =~= Seq::<char>::empty());
                assert(split_on(s@.take(i + 1), sep) == rest.push(Seq::<char>::empty()));
                assert(strings_view(out@) + seq![Seq::<char>::empty()] =~= (prev + seq![piece]).push(
                    Seq::<char>::empty(),
                ));
            }
            start = i + 1;
        } else {
            proof {
                assert(s@.subrange(start as int, i + 1) =~= piece.push(c));
                assert(split_on(s@.take(i + 1), sep) == rest.update(rest.len() - 1, rest.last().push(c)));
                assert(prev + seq![piece] =~= base + rest);
                assert((prev + seq![piece]).last() == (base + rest).last());
                assert(rest.last() == piece);
                assert(prev.len() + 1 == base.len() + rest.len());
                assert forall|k: int| 0 <= k < prev.len() implies prev[k] == (base + rest)[k] by {
                    assert((prev + seq![piece])[k] == prev[k]);
                }
                assert(prev + seq![piece.push(c)] =~= base + rest.update(rest.len() - 1, rest.last().push(c)));
            }
        }
        i = i + 1;
    }
    let piece = s.substring_char(start, n);
    out.push(piece.to_owned());
    proof {
        assert(s@.take(n as int) =~= s@);
        assert(strings_view(out@) =~= strings_view(old(out)@) + split_on(s@, sep)) by {
            assert(strings_view(out@) =~= (base + split_on(s@.take(n as int), sep)).drop_last().push(
                s@.subrange(start as int, n as int),
            ));
        }
    }
}

/// The places where dictionaries and user data are looked for.
#[derive(Debug)]
pub struct SearchPath {
    user_datadir: Option<String>,
    paths: Vec<String>,
}

impl SearchPath {
    /// The directory of the user data, if known.
    pub closed spec fn spec_user_datadir(&self) -> Option<Seq<char>> {
        match self.user_datadir {
            Some(s) => Some(s@),
            None => None,
        }
    }

    /// The directories searched, in order.
    pub closed spec fn spec_paths(&self) -> Seq<Seq<char>> {
        strings_view(self.paths@)
    }

    /// Searches the user data directory, when known, then each entry of the
    /// system path `sys_path`, whose entries are separated by `sep` (`;` on
    /// Windows, `:` elsewhere).
    pub fn from_system_path_and_env(sys_path: &str, user_datadir: Option<String>, sep: char) -> (r: SearchPath)
        ensures
            r.spec_user_datadir() == (match user_datadir {
                Some(s) => Some(s@),
                None => None::<Seq<char>>,
            }),
            r.spec_paths() == (match user_datadir {
                Some(s) => seq![s@],
                None => Seq::<Seq<char>>::empty(),
            }) + split_on(sys_path@, sep),
    {
        let mut paths: Vec<String> = Vec::new();
        if let Some(d) = &user_datadir {
            paths.push(d.clone());
        }
        let ghost first = strings_view(paths@);
        proof {
            match user_datadir {
                Some(ref s) => assert(first =~= seq![s@]),
                None => assert(first =~= Seq::<Seq<char>>::empty()),
            }
        }
        push_pieces(sys_path, sep, &mut paths);
        SearchPath { user_datadir, paths }
    }

    /// Searches the user data directory `user_path`, then each entry of the
    /// system path `sys_path`, whose entries are separated by `sep`.
    pub fn from_system_path_and_user_path(sys_path: &str, user_path: &str, sep: char) -> (r: SearchPath)
        ensures
            r.spec_user_datadir() == Some(user_path@),
            r.spec_paths() == seq![user_path@] + split_on(sys_path@, sep),
    {
        let user_datadir = user_path.to_owned();
        let mut paths: Vec<String> = Vec::new();
        paths.push(user_datadir.clone());
        proof {
            assert(strings_view(paths@) =~= seq![user_path@]);
        }
        push_pieces(sys_path, sep, &mut paths);
        SearchPath { user_datadir: Some(user_datadir), paths }
    }

    /// The directory of the user data, if known.
    pub fn user_datadir(&self) -> (r: Option<&str>)
        ensures
            r matches Some(s) ==> self.spec_user_datadir() == Some(s@),
            r is None ==> self.spec_user_datadir() is None,
    {
        match &self.user_datadir {
            Some(s) => Some(s.as_str()),
            None => None,
        }
    }

    /// The directories searched, in order.
    pub fn paths(&self) -> (r: &Vec<String>)
        ensures
            strings_view(r@) == self.spec_paths(),
    {
        &self.paths
    }
}

} // verus!
