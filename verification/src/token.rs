//! Tokens and the compute half of the tokenizer adapter.
//!
//! The external analyzer hands back, for each token, a surface substring and
//! a comma-separated feature string. Field 0 of the feature string is the
//! coarse part-of-speech tag; field 5 is the dictionary (base) form, which
//! defaults to the empty string when the feature string is too short.

use vstd::prelude::*;

verus! {

/// One token of a fragment: surface text, coarse part-of-speech tag, and
/// dictionary (base) form.
pub struct Token {
    pub text: String,
    pub pos: String,
    pub dictionary_form: String,
}

/// The mathematical image of a `Token`: its fields as character sequences.
pub struct TokenView {
    pub text: Seq<char>,
    pub pos: Seq<char>,
    pub dictionary_form: Seq<char>,
}

impl View for Token {
    type V = TokenView;

    open spec fn view(&self) -> TokenView {
        TokenView {
            text: self.text@,
            pos: self.pos@,
            dictionary_form: self.dictionary_form@,
        }
    }
}

impl Token {
    /// An exact copy of the token.
    pub fn duplicate(&self) -> (r: Token)
        ensures
            r@ == self@,
    {
        Token {
            text: self.text.clone(),
            pos: self.pos.clone(),
            dictionary_form: self.dictionary_form.clone(),
        }
    }
}

/// The views of a sequence of tokens.
pub open spec fn token_views(s: Seq<Token>) -> Seq<TokenView> {
    s.map_values(|t: Token| t@)
}

/// The views of a sequence of strings.
pub open spec fn string_views(s: Seq<String>) -> Seq<Seq<char>> {
    s.map_values(|x: String| x@)
}

/// Character-by-character string equality.
pub fn str_eq(a: &str, b: &str) -> (r: bool)
    ensures
        r == (a@ == b@),
{
    let n = a.unicode_len();
    if n != b.unicode_len() {
        proof {
            assert(a@ != b@) by {
                assert(a@.len() != b@.len());
            }
        }
        return false;
    }
    let mut i: usize = 0;
    while i < n
        invariant
            i <= n,
            n == a@.len(),
            n == b@.len(),
            forall|q: int| 0 <= q < i ==> a@[q] == b@[q],
        decreases n - i,
    {
        if a.get_char(i) != b.get_char(i) {
            return false;
        }
        i += 1;
    }
    proof {
        assert(a@ =~= b@);
    }
    true
}

/// The state of a left-to-right comma split: the finished fields, and the
/// field being built.
pub open spec fn comma_split_state(s: Seq<char>) -> (Seq<Seq<char>>, Seq<char>)
    decreases s.len(),
{
    if s.len() == 0 {
        (Seq::empty(), Seq::empty())
    } else {
        let prev = comma_split_state(s.drop_last());
        if s.last() == ',' {
            (prev.0.push(prev.1), Seq::empty())
        } else {
            (prev.0, prev.1.push(s.last()))
        }
    }
}

/// The comma-separated fields of a feature string, in order. Always at least
/// one field; empty fields are kept.
pub open spec fn fields_of(s: Seq<char>) -> Seq<Seq<char>> {
    comma_split_state(s).0.push(comma_split_state(s).1)
}

/// Field 0 of a feature string: the part-of-speech tag.
pub open spec fn pos_field(s: Seq<char>) -> Seq<char> {
    fields_of(s)[0]
}

/// Field 5 of a feature string: the dictionary form, or the empty sequence
/// when the feature string has fewer than six fields.
pub open spec fn dict_field(s: Seq<char>) -> Seq<char> {
    if fields_of(s).len() > 5 {
        fields_of(s)[5]
    } else {
        Seq::empty()
    }
}

/// Splits a string at every comma, keeping empty fields.
pub fn split_commas(s: &str) -> (r: Vec<String>)
    ensures
        string_views(r@) == fields_of(s@),
        r@.len() >= 1,
{
    let n = s.unicode_len();
    let mut done: Vec<String> = Vec::new();
    let mut start: usize = 0;
    let mut i: usize = 0;
    while i < n
        invariant
            start <= i <= n,
            n == s@.len(),
            string_views(done@) == comma_split_state(s@.take(i as int)).0,
            s@.subrange(start as int, i as int) == comma_split_state(s@.take(i as int)).1,
        decreases n - i,
    {
        let ghost pre = s@.take(i as int);
        proof {
            assert(s@.take(i + 1).drop_last() =~= pre);
            assert(s@.take(i + 1).last() == s@[i as int]);
        }
        if s.get_char(i) == ',' {
            let field = s.substring_char(start, i).to_owned();
            done.push(field);
            start = i + 1;
            proof {
                assert(string_views(done@) =~= comma_split_state(s@.take(i + 1)).0);
                assert(s@.subrange(i + 1, i + 1) =~= comma_split_state(s@.take(i + 1)).1);
            }
        } else {
            proof {
                assert(s@.subrange(start as int, i + 1) =~= s@.subrange(start as int, i as int)
                    .push(s@[i as int]));
                assert(string_views(done@) =~= comma_split_state(s@.take(i + 1)).0);
            }
        }
        i += 1;
    }
    let last_field = s.substring_char(start, n).to_owned();
    done.push(last_field);
    proof {
        assert(s@.take(n as int) =~= s@);
        assert(string_views(done@) =~= fields_of(s@));
    }
    done
}

/// Builds a token from a surface substring and the analyzer's feature string:
/// the part-of-speech is field 0 and the dictionary form is field 5,
/// defaulting to empty when the feature string is short.
pub fn token_from_feature(surface: String, feature: &str) -> (t: Token)
    ensures
        t@.text == surface@,
        t@.pos == pos_field(feature@),
        t@.dictionary_form == dict_field(feature@),
{
    let fields = split_commas(feature);
    let pos = fields[0].clone();
    let dictionary_form = if fields.len() > 5 {
        fields[5].clone()
    } else {
        String::new()
    };
    Token { text: surface, pos, dictionary_form }
}

} // verus!
