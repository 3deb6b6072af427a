//! Splitting a text blob into boundary-delimited fragments.
//!
//! A boundary character is any Unicode whitespace character, any ASCII
//! punctuation character, or one of a fixed set of full-width punctuation
//! marks. Runs of boundary characters produce no empty fragments.

use vstd::prelude::*;

verus! {

/// The 25 code points with the Unicode `White_Space` property.
pub open spec fn is_unicode_whitespace(c: char) -> bool {
    ||| 0x09 <= c as u32 <= 0x0d
    ||| c as u32 == 0x20
    ||| c as u32 == 0x85
    ||| c as u32 == 0xa0
    ||| c as u32 == 0x1680
    ||| 0x2000 <= c as u32 <= 0x200a
    ||| c as u32 == 0x2028
    ||| c as u32 == 0x2029
    ||| c as u32 == 0x202f
    ||| c as u32 == 0x205f
    ||| c as u32 == 0x3000
}

/// ASCII punctuation: the four ranges 0x21-0x2f, 0x3a-0x40, 0x5b-0x60 and
/// 0x7b-0x7e.
pub open spec fn is_ascii_punct(c: char) -> bool {
    ||| 0x21 <= c as u32 <= 0x2f
    ||| 0x3a <= c as u32 <= 0x40
    ||| 0x5b <= c as u32 <= 0x60
    ||| 0x7b <= c as u32 <= 0x7e
}

/// A character at which text is split into fragments: whitespace, ASCII
/// punctuation, or one of six full-width punctuation marks.
pub open spec fn is_boundary_char(c: char) -> bool {
    ||| is_unicode_whitespace(c)
    ||| is_ascii_punct(c)
    ||| c as u32 == 0xff0c  // full-width comma
    ||| c as u32 == 0x2026  // horizontal ellipsis
    ||| c as u32 == 0x2025  // two dot leader
    ||| c as u32 == 0x3002  // ideographic full stop
    ||| c as u32 == 0xff01  // full-width exclamation mark
    ||| c as u32 == 0xff1f  // full-width question mark
}

/// The state of a left-to-right split: the finished fragments, and the
/// fragment being built. A boundary character closes the current fragment,
/// dropping it when it is empty.
pub open spec fn seg_state(s: Seq<char>) -> (Seq<Seq<char>>, Seq<char>)
    decreases s.len(),
{
    if s.len() == 0 {
        (Seq::empty(), Seq::empty())
    } else {
        let prev = seg_state(s.drop_last());
        if is_boundary_char(s.last()) {
            if prev.1.len() > 0 {
                (prev.0.push(prev.1), Seq::empty())
            } else {
                prev
            }
        } else {
            (prev.0, prev.1.push(s.last()))
        }
    }
}

/// The non-empty boundary-free fragments of `s`, in order.
pub open spec fn fragments_of(s: Seq<char>) -> Seq<Seq<char>> {
    let (done, cur) = seg_state(s);
    if cur.len() > 0 {
        done.push(cur)
    } else {
        done
    }
}

/// Every fragment is non-empty and free of boundary characters.
pub proof fn lemma_fragments_wf(s: Seq<char>)
    ensures
        forall|j: int| 0 <= j < fragments_of(s).len() ==> (#[trigger] fragments_of(s)[j]).len()
            > 0,
        forall|j: int, q: int|
            0 <= j < fragments_of(s).len() && 0 <= q < fragments_of(s)[j].len()
                ==> !is_boundary_char(#[trigger] fragments_of(s)[j][q]),
{
    lemma_seg_state_wf(s);
}

proof fn lemma_seg_state_wf(s: Seq<char>)
    ensures
        forall|j: int| 0 <= j < seg_state(s).0.len() ==> (#[trigger] seg_state(s).0[j]).len() > 0,
        forall|j: int, q: int|
            0 <= j < seg_state(s).0.len() && 0 <= q < seg_state(s).0[j].len()
                ==> !is_boundary_char(#[trigger] seg_state(s).0[j][q]),
        forall|q: int| 0 <= q < seg_state(s).1.len() ==> !is_boundary_char(
            #[trigger] seg_state(s).1[q],
        ),
    decreases s.len(),
{
    if s.len() > 0 {
        lemma_seg_state_wf(s.drop_last());
        let prev = seg_state(s.drop_last());
        if is_boundary_char(s.last()) && prev.1.len() > 0 {
            assert(seg_state(s).0 == prev.0.push(prev.1));
            assert forall|j: int| 0 <= j < seg_state(s).0.len() implies (
            #[trigger] seg_state(s).0[j]).len() > 0 by {
                if j < prev.0.len() {
                    assert(seg_state(s).0[j] == prev.0[j]);
                } else {
                    assert(seg_state(s).0[j] == prev.1);
                }
            }
            assert forall|j: int, q: int|
                0 <= j < seg_state(s).0.len() && 0 <= q < seg_state(s).0[j].len()
                    implies !is_boundary_char(#[trigger] seg_state(s).0[j][q]) by {
                if j < prev.0.len() {
                    assert(seg_state(s).0[j] == prev.0[j]);
                } else {
                    assert(seg_state(s).0[j] == prev.1);
                }
            }
        }
    }
}

/// Text made of boundary characters alone yields no fragment at all.
pub proof fn lemma_all_boundary_no_fragments(s: Seq<char>)
    requires
        forall|i: int| 0 <= i < s.len() ==> is_boundary_char(#[trigger] s[i]),
    ensures
        fragments_of(s) == Seq::<Seq<char>>::empty(),
    decreases s.len(),
{
    if s.len() == 0 {
        assert(fragments_of(s) =~= Seq::<Seq<char>>::empty());
    } else {
        assert(forall|i: int| 0 <= i < s.drop_last().len() ==> is_boundary_char(
            #[trigger] s.drop_last()[i],
        ));
        lemma_all_boundary_no_fragments(s.drop_last());
        assert(is_boundary_char(s.last()));
        assert(fragments_of(s) =~= Seq::<Seq<char>>::empty());
    }
}

/// Splits `text` at every boundary character into its non-empty fragments.
pub fn split_fragments(text: &str) -> (r: Vec<String>)
    ensures
        crate::token::string_views(r@) == fragments_of(text@),
        forall|j: int| 0 <= j < r@.len() ==> (#[trigger] r@[j]@).len() > 0,
{
    let n = text.unicode_len();
    let mut done: Vec<String> = Vec::new();
    let mut start: usize = 0;
    let mut i: usize = 0;
    while i < n
        invariant
            start <= i <= n,
            n == text@.len(),
            crate::token::string_views(done@) == seg_state(text@.take(i as int)).0,
            text@.subrange(start as int, i as int) == seg_state(text@.take(i as int)).1,
        decreases n - i,
    {
        let ghost pre = text@.take(i as int);
        proof {
            assert(text@.take(i + 1).drop_last() =~= pre);
            assert(text@.take(i + 1).last() == text@[i as int]);
        }
        if is_separator(text.get_char(i)) {
            if start < i {
                let fragment = text.substring_char(start, i).to_owned();
                done.push(fragment);
                proof {
                    assert(crate::token::string_views(done@) =~= seg_state(text@.take(i + 1)).0);
                }
            } else {
                proof {
                    assert(crate::token::string_views(done@) =~= seg_state(text@.take(i + 1)).0);
                }
            }
            start = i + 1;
            proof {
                assert(text@.subrange(i + 1, i + 1) =~= seg_state(text@.take(i + 1)).1);
            }
        } else {
            proof {
                assert(text@.subrange(start as int, i + 1) =~= text@.subrange(
                    start as int,
                    i as int,
                ).push(text@[i as int]));
                assert(crate::token::string_views(done@) =~= seg_state(text@.take(i + 1)).0);
            }
        }
        i += 1;
    }
    proof {
        assert(text@.take(n as int) =~= text@);
    }
    if start < n {
        let fragment = text.substring_char(start, n).to_owned();
        done.push(fragment);
        proof {
            assert(crate::token::string_views(done@) =~= fragments_of(text@));
        }
    } else {
        proof {
            assert(crate::token::string_views(done@) =~= fragments_of(text@));
        }
    }
    proof {
        lemma_fragments_wf(text@);
        assert forall|j: int| 0 <= j < done@.len() implies (#[trigger] done@[j]@).len() > 0 by {
            assert(done@[j]@ == crate::token::string_views(done@)[j]);
        }
    }
    done
}

/// Decides whether `c` is a boundary (separator) character.
pub fn is_separator(c: char) -> (r: bool)
    ensures
        r == is_boundary_char(c),
{
    let u: u32 = c as u32;
    (0x09 <= u && u <= 0x0d) || u == 0x20 || u == 0x85 || u == 0xa0 || u == 0x1680
        || (0x2000 <= u && u <= 0x200a) || u == 0x2028 || u == 0x2029 || u == 0x202f
        || u == 0x205f || u == 0x3000 || (0x21 <= u && u <= 0x2f) || (0x3a <= u && u <= 0x40)
        || (0x5b <= u && u <= 0x60) || (0x7b <= u && u <= 0x7e) || u == 0xff0c || u == 0x2026
        || u == 0x2025 || u == 0x3002 || u == 0xff01 || u == 0xff1f
}

} // verus!
