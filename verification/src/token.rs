//! Tokenization of the raw input into symbols.
//!
//! Without a delimiter the symbols are the individual characters of the
//! input; with one they are the maximal nonempty fragments between
//! delimiter characters, which supports multi-character terminals.

use vstd::prelude::*;

verus! {

/// Splitting on a delimiter, with `cur` the fragment gathered so far:
/// a delimiter closes the fragment (dropped when empty), any other
/// character extends it.
pub open spec fn split_symbols(s: Seq<char>, d: char, cur: Seq<char>) -> Seq<Seq<char>>
    decreases s.len(),
{
    if s.len() == 0 {
        if cur.len() > 0 {
            seq![cur]
        } else {
            Seq::empty()
        }
    } else if s[0] == d {
        (if cur.len() > 0 {
            seq![cur]
        } else {
            Seq::empty()
        }) + split_symbols(s.drop_first(), d, Seq::empty())
    } else {
        split_symbols(s.drop_first(), d, cur.push(s[0]))
    }
}

/// The symbol sequence of an input under a tokenization rule: without a
/// delimiter, one symbol per character; with one, the nonempty fragments
/// between delimiters.
pub open spec fn spec_symbols(input: Seq<char>, split_on: Option<char>) -> Seq<Seq<char>> {
    match split_on {
        None => input.map_values(|c: char| seq![c]),
        Some(d) => split_symbols(input, d, Seq::empty()),
    }
}

/// Relies on str::chars: the characters of the string, in order.
#[verifier::external_body]
pub(crate) fn chars_vec(s: &str) -> (r: Vec<char>)
    ensures
        r@ == s@,
{
    s.chars().collect()
}

/// Relies on String's FromIterator over characters: the string holding
/// exactly the given characters, in order.
#[verifier::external_body]
pub(crate) fn string_from_chars(v: &Vec<char>) -> (r: String)
    ensures
        r@ == v@,
{
    v.iter().collect()
}

/// Tokenizes the input: per character, or on runs of the delimiter with
/// empty fragments discarded.
pub fn tokenize(input: &str, split_on: Option<char>) -> (r: Vec<String>)
    ensures
        r.deep_view() == spec_symbols(input@, split_on),
{
    let cs = chars_vec(input);
    match split_on {
        None => {
            let mut out: Vec<String> = Vec::new();
            let mut i: usize = 0;
            while i < cs.len()
                invariant
                    i <= cs.len(),
                    cs@ == input@,
                    out@.len() == i,
                    forall|j: int| 0 <= j < i ==> (#[trigger] out@[j])@ == seq![cs@[j]],
                decreases cs.len() - i,
            {
                let sym = vec![cs[i]];
                proof {
                    assert(sym@ =~= seq![cs@[i as int]]);
                }
                let symstr = string_from_chars(&sym);
                out.push(symstr);
                i += 1;
            }
            proof {
                assert forall|j: int| 0 <= j < out@.len()
                    implies out.deep_view()[j] == spec_symbols(input@, split_on)[j] by {
                    assert(out@[j]@ == seq![cs@[j]]);
                }
                assert(out.deep_view() =~= spec_symbols(input@, split_on));
            }
            out
        },
        Some(d) => {
            let mut out: Vec<String> = Vec::new();
            let mut cur: Vec<char> = Vec::new();
            let mut i: usize = 0;
            let ghost total = split_symbols(input@, d, Seq::empty());
            proof {
                assert(cs@.skip(0) =~= cs@);
                assert(Seq::<Seq<char>>::empty() + split_symbols(cs@, d, cur@) =~= total);
            }
            while i < cs.len()
                invariant
                    i <= cs.len(),
                    cs@ == input@,
                    total == split_symbols(input@, d, Seq::empty()),
                    out.deep_view() + split_symbols(cs@.skip(i as int), d, cur@) == total,
                decreases cs.len() - i,
            {
                let ghost rest = cs@.skip(i as int);
                let ghost prev = out.deep_view();
                let ghost oldcur = cur@;
                proof {
                    assert(rest[0] == cs@[i as int]);
                    assert(rest.drop_first() =~= cs@.skip(i as int + 1));
                }
                if cs[i] == d {
                    if cur.len() > 0 {
                        let sym = string_from_chars(&cur);
                        out.push(sym);
                        cur = Vec::new();
                        proof {
                            assert(cur@ =~= Seq::<char>::empty());
                            assert(split_symbols(rest, d, oldcur) == seq![oldcur]
                                + split_symbols(cs@.skip(i as int + 1), d, Seq::empty()));
                            assert(out.deep_view() =~= prev + seq![oldcur]);
                            assert(out.deep_view() + split_symbols(
                                cs@.skip(i as int + 1),
                                d,
                                cur@,
                            ) =~= prev + split_symbols(rest, d, oldcur));
                        }
                    } else {
                        proof {
                            assert(oldcur =~= Seq::<char>::empty());
                            assert(split_symbols(rest, d, oldcur) == Seq::<Seq<char>>::empty()
                                + split_symbols(cs@.skip(i as int + 1), d, Seq::empty()));
                            assert(Seq::<Seq<char>>::empty() + split_symbols(
                                cs@.skip(i as int + 1),
                                d,
                                Seq::empty(),
                            ) =~= split_symbols(cs@.skip(i as int + 1), d, Seq::empty()));
                            assert(out.deep_view() + split_symbols(
                                cs@.skip(i as int + 1),
                                d,
                                cur@,
                            ) == total);
                        }
                    }
                } else {
                    cur.push(cs[i]);
                    proof {
                        assert(cur@ =~= oldcur.push(cs@[i as int]));
                    }
                }
                i += 1;
            }
            proof {
                assert(cs@.skip(cs@.len() as int) =~= Seq::<char>::empty());
            }
            if cur.len() > 0 {
                let ghost prev = out.deep_view();
                let ghost oldcur = cur@;
                let sym = string_from_chars(&cur);
                out.push(sym);
                proof {
                    assert(split_symbols(Seq::<char>::empty(), d, oldcur) == seq![oldcur]);
                    assert(out.deep_view() =~= prev + seq![oldcur]);
                    assert(out.deep_view() =~= spec_symbols(input@, split_on));
                }
            } else {
                proof {
                    assert(cur@ =~= Seq::<char>::empty());
                    assert(split_symbols(Seq::<char>::empty(), d, cur@)
                        =~= Seq::<Seq<char>>::empty());
                    assert(out.deep_view() + Seq::<Seq<char>>::empty() =~= out.deep_view());
                    assert(out.deep_view() =~= spec_symbols(input@, split_on));
                }
            }
            out
        },
    }
}

} // verus!
