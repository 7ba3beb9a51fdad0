use unic_ucd_category::GeneralCategory;
use vstd::prelude::*;

verus! {

/// Whether the Unicode general category of `c` is a letter category (Lu, Ll, Lt, Lm, Lo).
pub uninterp spec fn letter_char(c: char) -> bool;

/// Whether the Unicode general category of `c` is a number category (Nd, Nl, No).
pub uninterp spec fn number_char(c: char) -> bool;

/// Whether the Unicode general category of `c` is Private Use (Co).
pub uninterp spec fn private_use_char(c: char) -> bool;

/// Relies on `GeneralCategory::of` and `GeneralCategory::is_letter` of unic-ucd-category.
#[verifier::external_body]
fn category_is_letter(c: char) -> (r: bool)
    ensures
        r == letter_char(c),
{
    GeneralCategory::of(c).is_letter()
}

/// Relies on `GeneralCategory::of` and `GeneralCategory::is_number` of unic-ucd-category.
#[verifier::external_body]
fn category_is_number(c: char) -> (r: bool)
    ensures
        r == number_char(c),
{
    GeneralCategory::of(c).is_number()
}

/// Relies on `GeneralCategory::of` of unic-ucd-category, compared with its `PrivateUse` variant.
#[verifier::external_body]
fn category_is_private_use(c: char) -> (r: bool)
    ensures
        r == private_use_char(c),
{
    GeneralCategory::of(c) == GeneralCategory::PrivateUse
}

/// A character that belongs inside a token: a letter, a number or a private-use character.
pub open spec fn token_char(c: char) -> bool {
    letter_char(c) || number_char(c) || private_use_char(c)
}

pub fn is_token_charcter(c: char) -> (r: bool)
    ensures
        r == token_char(c),
{
    category_is_number(c) || category_is_letter(c) || category_is_private_use(c)
}

/// Scans `s` from the left, `f[i]` telling whether `s[i]` belongs inside a token:
/// the finished runs, and the run that is still open at the end of `s`.
pub open spec fn scan_runs(s: Seq<char>, f: Seq<bool>) -> (Seq<Seq<char>>, Seq<char>)
    decreases s.len(),
{
    if s.len() == 0 {
        (Seq::empty(), Seq::empty())
    } else {
        let (done, run) = scan_runs(s.drop_last(), f.drop_last());
        let c = s.last();
        if f.last() {
            (done, run.push(c))
        } else if run.len() > 0 {
            (done.push(run), Seq::empty())
        } else {
            (done, run)
        }
    }
}

/// The maximal non-empty runs of `s` whose characters `f` marks, in order.
pub open spec fn runs_of(s: Seq<char>, f: Seq<bool>) -> Seq<Seq<char>> {
    let (done, run) = scan_runs(s, f);
    if run.len() > 0 {
        done.push(run)
    } else {
        done
    }
}

/// Which characters of `s` belong inside a token.
pub open spec fn token_flags(s: Seq<char>) -> Seq<bool> {
    Seq::new(s.len(), |i: int| token_char(s[i]))
}

/// The tokens of `s`: its maximal non-empty runs of token characters, in order.
pub open spec fn tokens_of(s: Seq<char>) -> Seq<Seq<char>> {
    runs_of(s, token_flags(s))
}

/// The characters of `s`.
pub fn chars_of(s: &str) -> (r: Vec<char>)
    ensures
        r@ == s@,
{
    let mut r: Vec<char> = Vec::new();
    for c in it: s.chars()
        invariant
            it.seq() == s@,
            r@ == s@.take(it.index() as int),
    {
        r.push(c);
        assert(r@ == s@.take(it.index() + 1));
    }
    assert(s@.take(s@.len() as int) == s@);
    r
}

/// Splits `chars` into the maximal non-empty runs of characters that `flags` marks.
pub fn split_runs(chars: &Vec<char>, flags: &Vec<bool>) -> (r: Vec<Vec<char>>)
    requires
        chars@.len() == flags@.len(),
    ensures
        r@.len() == runs_of(chars@, flags@).len(),
        forall|i: int| 0 <= i < r@.len() ==> #[trigger] r@[i]@ == runs_of(chars@, flags@)[i],
{
    let mut done: Vec<Vec<char>> = Vec::new();
    let mut run: Vec<char> = Vec::new();
    for i in 0..chars.len()
        invariant
            chars@.len() == flags@.len(),
            done@.len() == scan_runs(chars@.take(i as int), flags@.take(i as int)).0.len(),
            forall|j: int|
                0 <= j < done@.len() ==> #[trigger] done@[j]@ == scan_runs(
                    chars@.take(i as int),
                    flags@.take(i as int),
                ).0[j],
            run@ == scan_runs(chars@.take(i as int), flags@.take(i as int)).1,
    {
        assert(chars@.take(i + 1).drop_last() == chars@.take(i as int));
        assert(flags@.take(i + 1).drop_last() == flags@.take(i as int));
        if flags[i] {
            run.push(chars[i]);
        } else if run.len() > 0 {
            done.push(run);
            run = Vec::new();
        }
    }
    assert(chars@.take(chars@.len() as int) == chars@);
    assert(flags@.take(flags@.len() as int) == flags@);
    if run.len() > 0 {
        done.push(run);
    }
    done
}

/// Splits `s` into its tokens, each as a sequence of characters.
pub fn token_runs(s: &str) -> (r: Vec<Vec<char>>)
    ensures
        r@.len() == tokens_of(s@).len(),
        forall|i: int| 0 <= i < r@.len() ==> #[trigger] r@[i]@ == tokens_of(s@)[i],
{
    let chars = chars_of(s);
    let mut flags: Vec<bool> = Vec::new();
    for i in 0..chars.len()
        invariant
            chars@ == s@,
            flags@ == token_flags(s@).take(i as int),
    {
        flags.push(is_token_charcter(chars[i]));
        assert(flags@ == token_flags(s@).take(i + 1));
    }
    assert(flags@ == token_flags(s@));
    split_runs(&chars, &flags)
}

/// Relies on `String::from_iter` over characters: the string of exactly these characters.
#[verifier::external_body]
fn string_of(v: &Vec<char>) -> (r: String)
    ensures
        r@ == v@,
{
    String::from_iter(v.iter())
}

/// The tokens of `s`, in order: its maximal non-empty runs of letters, numbers
/// and private-use characters.
pub fn tokens_iter(s: &str) -> (r: Vec<String>)
    ensures
        r@.len() == tokens_of(s@).len(),
        forall|i: int| 0 <= i < r@.len() ==> #[trigger] r@[i]@ == tokens_of(s@)[i],
{
    let runs = token_runs(s);
    let mut r: Vec<String> = Vec::new();
    for i in 0..runs.len()
        invariant
            runs@.len() == tokens_of(s@).len(),
            forall|j: int| 0 <= j < runs@.len() ==> #[trigger] runs@[j]@ == tokens_of(s@)[j],
            r@.len() == i,
            forall|j: int| 0 <= j < i ==> #[trigger] r@[j]@ == tokens_of(s@)[j],
    {
        r.push(string_of(&runs[i]));
    }
    r
}

} // verus!
