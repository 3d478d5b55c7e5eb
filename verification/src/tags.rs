//! Path-derived metadata.
//!
//! When a file carries no artist tag, the artist is guessed from the file's
//! path: among the directory components of the path's parent, the
//! second-to-last one if there are at least two, else the only one, else the
//! empty string.  A component is a maximal run of non-separator characters
//! that names a directory: neither empty, nor the current-directory dot, nor
//! the parent-directory double dot.
//!
//! The rating helpers turn the raw payloads of popularity tags into the
//! 0–255 rating byte the playlist weighs.

use vstd::prelude::*;

verus! {

/// A run of characters that counts as a directory component: not empty, not
/// the current-directory dot, not the parent-directory double dot.
pub open spec fn valid_comp(r: Seq<char>) -> bool {
    r.len() > 0 && r != seq!['.'] && r != seq!['.', '.']
}

/// The components of `s`, scanned from the right with the pending run `run`.
pub open spec fn comps_rec(s: Seq<char>, run: Seq<char>) -> Seq<Seq<char>>
    decreases s.len(),
{
    if s.len() == 0 {
        if valid_comp(run) {
            seq![run]
        } else {
            Seq::empty()
        }
    } else if s.last() == '/' {
        comps_rec(s.drop_last(), Seq::empty()) + (if valid_comp(run) {
            seq![run]
        } else {
            Seq::empty()
        })
    } else {
        comps_rec(s.drop_last(), seq![s.last()] + run)
    }
}

/// The directory components of `s`, left to right.
pub open spec fn comps(s: Seq<char>) -> Seq<Seq<char>> {
    comps_rec(s, Seq::empty())
}

/// Everything before the last separator; a path without one has an empty
/// parent.
pub open spec fn parent_of(s: Seq<char>) -> Seq<char>
    decreases s.len(),
{
    if s.len() == 0 {
        s
    } else if s.last() == '/' {
        s.drop_last()
    } else {
        parent_of(s.drop_last())
    }
}

/// The artist guessed from a path: the second-to-last component of its
/// parent when there are two or more, else the only one, else nothing.
pub open spec fn artist_of(s: Seq<char>) -> Seq<char> {
    let cs = comps(parent_of(s));
    if cs.len() >= 2 {
        cs[cs.len() - 2]
    } else if cs.len() == 1 {
        cs[0]
    } else {
        Seq::empty()
    }
}

proof fn lemma_parent_no_sep(s: Seq<char>)
    requires
        forall|k: int| 0 <= k < s.len() ==> s[k] != '/',
    ensures
        parent_of(s) == Seq::<char>::empty(),
    decreases s.len(),
{
    if s.len() > 0 {
        lemma_parent_no_sep(s.drop_last());
    } else {
        assert(s =~= Seq::<char>::empty());
    }
}

proof fn lemma_parent_at(s: Seq<char>, sep: int)
    requires
        0 <= sep < s.len(),
        s[sep] == '/',
        forall|k: int| sep < k < s.len() ==> s[k] != '/',
    ensures
        parent_of(s) == s.take(sep),
    decreases s.len(),
{
    if sep == s.len() - 1 {
        assert(s.drop_last() =~= s.take(sep));
    } else {
        lemma_parent_at(s.drop_last(), sep);
        assert(s.drop_last().take(sep) =~= s.take(sep));
    }
}

/// Guess the artist from a file path (see `artist_of`).
pub fn parse_artist_from_path(path: &str) -> (r: String)
    ensures
        r@ == artist_of(path@),
{
    let n = path.unicode_len();
    let mut k = n;
    let mut sep_at: usize = 0;
    let mut have_sep = false;
    while k > 0
        invariant_except_break
            !have_sep,
        invariant
            k <= n,
            n == path@.len(),
            forall|p: int| k <= p < n ==> path@[p] != '/',
        ensures
            have_sep ==> (sep_at as int) < n && path@[sep_at as int] == '/' && (forall|p: int|
                sep_at < p < n ==> path@[p] != '/'),
            !have_sep ==> (forall|p: int| 0 <= p < n ==> path@[p] != '/'),
        decreases k,
    {
        let c = path.get_char(k - 1);
        if c == '/' {
            sep_at = k - 1;
            have_sep = true;
            break ;
        }
        k -= 1;
    }
    if !have_sep {
        proof {
            lemma_parent_no_sep(path@);
        }
        return String::new();
    }
    let pl = sep_at;
    proof {
        lemma_parent_at(path@, pl as int);
    }
    let ghost par = path@.take(pl as int);
    let mut i = pl;
    let mut rend = pl;
    let mut c1s: usize = 0;
    let mut c1e: usize = 0;
    let mut have1 = false;
    let mut c2s: usize = 0;
    let mut c2e: usize = 0;
    let mut have2 = false;
    let ghost mut found: Seq<Seq<char>> = Seq::empty();
    proof {
        assert(par.take(pl as int) =~= par);
        assert(par.subrange(pl as int, pl as int) =~= Seq::<char>::empty());
        assert(comps_rec(par, Seq::empty()) + Seq::<Seq<char>>::empty() =~= comps_rec(
            par,
            Seq::empty(),
        ));
    }
    while i > 0 && !have2
        invariant
            i <= rend <= pl,
            (pl as int) < n,
            n == path@.len(),
            par == path@.take(pl as int),
            comps(par) == comps_rec(par.take(i as int), par.subrange(i as int, rend as int))
                + found,
            have2 ==> have1,
            !have1 ==> found == Seq::<Seq<char>>::empty(),
            have1 ==> c1s <= c1e <= pl && valid_comp(par.subrange(c1s as int, c1e as int)),
            have2 ==> c2s <= c2e <= pl && valid_comp(par.subrange(c2s as int, c2e as int)),
            have1 && !have2 ==> found == seq![par.subrange(c1s as int, c1e as int)],
            have1 && have2 ==> found == seq![
                par.subrange(c2s as int, c2e as int),
                par.subrange(c1s as int, c1e as int),
            ],
        decreases i,
    {
        let c = path.get_char(i - 1);
        proof {
            assert(path@[i - 1] == par[i - 1]);
            assert(par.take(i as int).last() == par[i - 1]);
            assert(par.take(i as int).drop_last() =~= par.take(i as int - 1));
        }
        if c == '/' {
            let ghost run = par.subrange(i as int, rend as int);
            let vlen = rend - i;
            let mut isvalid = vlen > 0;
            if vlen == 1 {
                let c0 = path.get_char(i);
                if c0 == '.' {
                    isvalid = false;
                }
                proof {
                    assert(run =~= seq![par[i as int]]);
                    assert(run.len() != 2);
                    if par[i as int] == '.' {
                        assert(run =~= seq!['.']);
                    } else {
                        assert(run[0] != '.');
                        assert(run != seq!['.']);
                    }
                }
            } else if vlen == 2 {
                let c0 = path.get_char(i);
                let c1 = path.get_char(i + 1);
                if c0 == '.' && c1 == '.' {
                    isvalid = false;
                }
                proof {
                    assert(run =~= seq![par[i as int], par[i as int + 1]]);
                    assert(run.len() != 1);
                    if par[i as int] == '.' && par[i as int + 1] == '.' {
                        assert(run =~= seq!['.', '.']);
                    } else {
                        assert(run[0] != '.' || run[1] != '.');
                        assert(run != seq!['.', '.']);
                    }
                }
            }
            proof {
                if vlen > 2 {
                    assert(run.len() != 1);
                    assert(run.len() != 2);
                }
                assert(isvalid == valid_comp(run));
            }
            if isvalid {
                if !have1 {
                    c1s = i;
                    c1e = rend;
                    have1 = true;
                } else {
                    c2s = i;
                    c2e = rend;
                    have2 = true;
                }
                proof {
                    found = seq![run] + found;
                }
            }
            proof {
                let prefix = comps_rec(par.take(i as int - 1), Seq::<char>::empty());
                if valid_comp(run) {
                    assert(comps_rec(par.take(i as int), run) == prefix + seq![run]);
                    assert(prefix + seq![run] + found.drop_first() =~= prefix + (seq![run]
                        + found.drop_first()));
                    assert(seq![run] + found.drop_first() =~= found);
                } else {
                    assert(comps_rec(par.take(i as int), run) == prefix + Seq::<Seq<char>>::empty());
                    assert(prefix + Seq::<Seq<char>>::empty() =~= prefix);
                }
                assert(par.subrange(i as int - 1, i as int - 1) =~= Seq::<char>::empty());
            }
            rend = i - 1;
        } else {
            proof {
                assert(seq![par[i as int - 1]] + par.subrange(i as int, rend as int) =~= par
                    .subrange(i as int - 1, rend as int));
            }
        }
        i -= 1;
    }
    if !have2 {
        let ghost run = par.subrange(0, rend as int);
        proof {
            assert(par.take(0int) =~= Seq::<char>::empty());
        }
        let vlen = rend;
        let mut isvalid = vlen > 0;
        if vlen == 1 {
            let c0 = path.get_char(0);
            if c0 == '.' {
                isvalid = false;
            }
            proof {
                assert(run =~= seq![par[0]]);
                assert(run.len() != 2);
                if par[0] == '.' {
                    assert(run =~= seq!['.']);
                } else {
                    assert(run[0] != '.');
                    assert(run != seq!['.']);
                }
            }
        } else if vlen == 2 {
            let c0 = path.get_char(0);
            let c1 = path.get_char(1);
            if c0 == '.' && c1 == '.' {
                isvalid = false;
            }
            proof {
                assert(run =~= seq![par[0], par[1]]);
                assert(run.len() != 1);
                if par[0] == '.' && par[1] == '.' {
                    assert(run =~= seq!['.', '.']);
                } else {
                    assert(run[0] != '.' || run[1] != '.');
                    assert(run != seq!['.', '.']);
                }
            }
        }
        proof {
            if vlen > 2 {
                assert(run.len() != 1);
                assert(run.len() != 2);
            }
            assert(isvalid == valid_comp(run));
        }
        if isvalid {
            if !have1 {
                c1s = 0;
                c1e = rend;
                have1 = true;
            } else {
                c2s = 0;
                c2e = rend;
                have2 = true;
            }
            proof {
                found = seq![run] + found;
                assert(comps_rec(Seq::<char>::empty(), run) == seq![run]);
                assert(seq![run] + found.drop_first() =~= found);
            }
        } else {
            proof {
                assert(comps_rec(Seq::<char>::empty(), run) == Seq::<Seq<char>>::empty());
                assert(Seq::<Seq<char>>::empty() + found =~= found);
            }
        }
        proof {
            assert(comps(par) == found);
        }
    }
    if have2 {
        proof {
            let cs = comps(par);
            assert(cs[cs.len() - 2] == par.subrange(c2s as int, c2e as int));
            assert(par.subrange(c2s as int, c2e as int) =~= path@.subrange(
                c2s as int,
                c2e as int,
            ));
        }
        let sub = path.substring_char(c2s, c2e);
        sub.to_owned()
    } else if have1 {
        proof {
            let cs = comps(par);
            assert(cs.len() == 1);
            assert(cs[0] == par.subrange(c1s as int, c1e as int));
            assert(par.subrange(c1s as int, c1e as int) =~= path@.subrange(
                c1s as int,
                c1e as int,
            ));
        }
        let sub = path.substring_char(c1s, c1e);
        sub.to_owned()
    } else {
        proof {
            assert(comps(par).len() == 0);
        }
        String::new()
    }
}

/// The rating byte of a binary popularimeter payload: the fifth byte from the
/// end, present only when the payload is longer than five bytes.
pub fn rating_from_popm(bin: &[u8]) -> (r: Option<u8>)
    ensures
        r == if bin@.len() > 5 {
            Some(bin@[bin@.len() - 5])
        } else {
            None::<u8>
        },
{
    if bin.len() > 5 {
        Some(bin[bin.len() - 5])
    } else {
        None
    }
}

/// Scale a textual 0–100 rating to the 0–255 range.
pub fn rating_from_text100(v: u8) -> (r: u8)
    requires
        v <= 102,
    ensures
        r == v * 2 + v / 2,
{
    v * 2 + v / 2
}

} // verus!
