//! The tokenizer: reading characters and tokens from the front of a string.
//!
//! A token is either a maximal run of alphabetic characters or one character
//! that is not alphabetic. Whitespace before a token is skipped.
use crate::expr::Error;
use crate::expr::ErrorView;
use crate::expr::Expr;
use crate::expr::Tree;
use vstd::prelude::*;

verus! {

/// Whether `c` has the Unicode property `White_Space`: what
/// `char::is_whitespace` returns for it.
pub uninterp spec fn is_whitespace_char(c: char) -> bool;

/// Whether `c` has the Unicode property `Alphabetic`: what
/// `char::is_alphabetic` returns for it.
pub uninterp spec fn is_alphabetic_char(c: char) -> bool;

/// `char::is_whitespace` is taken to be a function of the character alone,
/// named [`is_whitespace_char`]. Nothing is claimed of any given character.
pub assume_specification[ char::is_whitespace ](c: char) -> (b: bool)
    ensures
        b == is_whitespace_char(c),
;

/// `char::is_alphabetic` is taken to be a function of the character alone,
/// named [`is_alphabetic_char`]. Nothing is claimed of any given character.
pub assume_specification[ char::is_alphabetic ](c: char) -> (b: bool)
    ensures
        b == is_alphabetic_char(c),
;

/// `s` without the whitespace at its front.
pub open spec fn skip_whitespace(s: Seq<char>) -> Seq<char>
    decreases s.len(),
{
    if s.len() > 0 && is_whitespace_char(s[0]) {
        skip_whitespace(s.drop_first())
    } else {
        s
    }
}

/// The number of alphabetic characters at the front of `s`.
pub open spec fn alphabetic_run(s: Seq<char>) -> nat
    decreases s.len(),
{
    if s.len() > 0 && is_alphabetic_char(s[0]) {
        1 + alphabetic_run(s.drop_first())
    } else {
        0
    }
}

/// The length of the token at the front of a non-empty `s`: the whole run
/// of alphabetic characters where it begins with one, else one character.
pub open spec fn token_len(s: Seq<char>) -> nat {
    if is_alphabetic_char(s[0]) {
        alphabetic_run(s)
    } else {
        1
    }
}

/// The first token of `s` and what follows it, or `None` where `s` holds
/// nothing but whitespace.
pub open spec fn scan(s: Seq<char>) -> Option<(Seq<char>, Seq<char>)> {
    let t = skip_whitespace(s);
    if t.len() == 0 {
        None
    } else {
        Some((t.take(token_len(t) as int), t.skip(token_len(t) as int)))
    }
}

/// Skipping whitespace yields a suffix that does not begin with whitespace.
pub proof fn lemma_skip_whitespace(s: Seq<char>)
    ensures
        skip_whitespace(s).len() <= s.len(),
        skip_whitespace(s) == s.skip(s.len() - skip_whitespace(s).len()),
        skip_whitespace(s).len() > 0 ==> !is_whitespace_char(skip_whitespace(s)[0]),
        skip_whitespace(skip_whitespace(s)) == skip_whitespace(s),
    decreases s.len(),
{
    if s.len() > 0 && is_whitespace_char(s[0]) {
        let t = s.drop_first();
        lemma_skip_whitespace(t);
        let d = t.len() - skip_whitespace(t).len();
        assert(t.skip(d) =~= s.skip(d + 1));
    } else {
        assert(s.skip(0) =~= s);
    }
}

/// A run of alphabetic characters is no longer than the text, consists of
/// alphabetic characters, and ends at the text's end or before a character
/// that is not alphabetic.
pub proof fn lemma_alphabetic_run(s: Seq<char>)
    ensures
        alphabetic_run(s) <= s.len(),
        forall|i: int| 0 <= i < alphabetic_run(s) ==> is_alphabetic_char(#[trigger] s[i]),
        alphabetic_run(s) < s.len() ==> !is_alphabetic_char(s[alphabetic_run(s) as int]),
    decreases s.len(),
{
    if s.len() > 0 && is_alphabetic_char(s[0]) {
        let t = s.drop_first();
        lemma_alphabetic_run(t);
        assert forall|i: int| 0 <= i < alphabetic_run(s) implies is_alphabetic_char(
            #[trigger] s[i],
        ) by {
            if i > 0 {
                assert(s[i] == t[i - 1]);
            }
        }
        if alphabetic_run(s) < s.len() {
            assert(s[alphabetic_run(s) as int] == t[alphabetic_run(t) as int]);
        }
    }
}

/// A text whose first `k` characters are alphabetic, and which ends there or
/// goes on with a character that is not, has an alphabetic run of `k`.
pub proof fn lemma_alphabetic_run_is(s: Seq<char>, k: nat)
    requires
        k <= s.len(),
        forall|i: int| 0 <= i < k ==> is_alphabetic_char(#[trigger] s[i]),
        k < s.len() ==> !is_alphabetic_char(s[k as int]),
    ensures
        alphabetic_run(s) == k,
    decreases k,
{
    if k > 0 {
        let t = s.drop_first();
        assert forall|i: int| 0 <= i < k - 1 implies is_alphabetic_char(#[trigger] t[i]) by {
            assert(t[i] == s[i + 1]);
        }
        lemma_alphabetic_run_is(t, (k - 1) as nat);
        assert(is_alphabetic_char(s[0]));
    }
}

/// A token has one character at least, so what follows it is shorter than
/// the text it was read from.
pub proof fn lemma_scan(s: Seq<char>)
    ensures
        match scan(s) {
            Some((token, rest)) => {
                &&& token.len() >= 1
                &&& token.len() + rest.len() == skip_whitespace(s).len()
                &&& token + rest == skip_whitespace(s)
                &&& rest.len() < s.len()
                &&& !is_whitespace_char(token[0])
            },
            None => skip_whitespace(s).len() == 0,
        },
{
    let t = skip_whitespace(s);
    lemma_skip_whitespace(s);
    if t.len() > 0 {
        lemma_alphabetic_run(t);
        let n = token_len(t) as int;
        assert(t.take(n) + t.skip(n) =~= t);
    }
}

/// Reads the next character from `src`, if there is one.
pub fn next(src: &mut &str) -> (first: Option<char>)
    ensures
        old(src)@.len() == 0 ==> first is None && final(src)@ == old(src)@,
        old(src)@.len() > 0 ==> first == Some(old(src)@[0]) && final(src)@ == old(
            src,
        )@.drop_first(),
{
    let s: &str = *src;
    let n: usize = s.unicode_len();
    if n == 0 {
        return None;
    }
    let first = s.get_char(0);
    *src = s.substring_char(1, n);
    assert(s@.subrange(1, n as int) =~= s@.drop_first());
    Some(first)
}

/// Applies `function` to a copy of `src` and returns what it returns: `src`
/// itself is left as it was.
pub fn peek<T, F: Fn(&mut &str) -> T>(src: &&str, function: F) -> (result: T)
    requires
        forall|copy: &mut &str| *copy == *src ==> call_requires(function, (copy,)),
    ensures
        exists|copy: &mut &str| *copy == *src && call_ensures(function, (copy,), result),
{
    let mut copy: &str = *src;
    let result = function(&mut copy);
    result
}

/// Reads characters from `src` as long as they are whitespace. Never fails.
pub fn whitespace(src: &mut &str) -> (done: Result<(), (String, Error)>)
    ensures
        done is Ok,
        final(src)@ == skip_whitespace(old(src)@),
{
    let s: &str = *src;
    let n: usize = s.unicode_len();
    let mut k: usize = 0;
    assert(s@.skip(0) =~= s@);
    while k < n
        invariant
            k <= n,
            n == s@.len(),
            skip_whitespace(s@) == skip_whitespace(s@.skip(k as int)),
        ensures
            k <= n,
            skip_whitespace(s@) == s@.skip(k as int),
        decreases n - k,
    {
        if !s.get_char(k).is_whitespace() {
            break ;
        }
        assert(s@.skip(k as int).drop_first() =~= s@.skip(k as int + 1));
        k += 1;
    }
    *src = s.substring_char(k, n);
    assert(s@.subrange(k as int, n as int) =~= s@.skip(k as int));
    Ok(())
}

/// Reads a token as an expression that is that one name.
pub fn expr_token(src: &mut &str) -> (read: Result<Box<Expr>, (String, Error)>)
    ensures
        match scan(old(src)@) {
            Some((name, rest)) => {
                &&& read is Ok
                &&& read->Ok_0@ == Tree::Name(name)
                &&& final(src)@ == rest
            },
            None => {
                &&& read is Err
                &&& read->Err_0.0@ == final(src)@
                &&& read->Err_0.1@ == ErrorView::EndOfInput
                &&& final(src)@ == skip_whitespace(old(src)@)
            },
        },
{
    match token(src) {
        Ok(name) => Ok(Box::new(Expr::Name(name))),
        Err(error) => Err(error),
    }
}

/// Skips whitespace, then reads either all the alphabetic characters that
/// follow or one character that is not alphabetic.
///
/// Fails with [`Error::EOF`] where nothing but whitespace is left; the error
/// carries what is left of the text then, which is nothing.
pub fn token(src: &mut &str) -> (read: Result<String, (String, Error)>)
    ensures
        match scan(old(src)@) {
            Some((name, rest)) => {
                &&& read is Ok
                &&& read->Ok_0@ == name
                &&& final(src)@ == rest
            },
            None => {
                &&& read is Err
                &&& read->Err_0.0@ == final(src)@
                &&& read->Err_0.1@ == ErrorView::EndOfInput
                &&& final(src)@ == skip_whitespace(old(src)@)
            },
        },
{
    let _ = whitespace(src);
    let s: &str = *src;
    let n: usize = s.unicode_len();
    if n == 0 {
        return Err((s.to_owned(), Error::EOF));
    }
    let first = s.get_char(0);
    let mut k: usize = 1;
    if first.is_alphabetic() {
        while k < n
            invariant
                1 <= k <= n,
                n == s@.len(),
                forall|i: int| 0 <= i < k ==> is_alphabetic_char(#[trigger] s@[i]),
            ensures
                1 <= k <= n,
                forall|i: int| 0 <= i < k ==> is_alphabetic_char(#[trigger] s@[i]),
                k < n ==> !is_alphabetic_char(s@[k as int]),
            decreases n - k,
        {
            if !s.get_char(k).is_alphabetic() {
                break ;
            }
            k += 1;
        }
        proof {
            lemma_alphabetic_run_is(s@, k as nat);
        }
    }
    let name = s.substring_char(0, k).to_owned();
    *src = s.substring_char(k, n);
    proof {
        assert(s@.subrange(0, k as int) =~= s@.take(k as int));
        assert(s@.subrange(k as int, n as int) =~= s@.skip(k as int));
    }
    Ok(name)
}

} // verus!
