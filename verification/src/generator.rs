//! Generation of new random passwords from the kinds of characters the user
//! asks for, and the reading of the answers to its questions.

use rand::Rng;
use vstd::prelude::*;

use crate::text::{
    ascii_lower, decimal, is_digit, lemma_parse_decimal, ascii_upper, chars_of, parse_unsigned, parse_unsigned_range,
    push_char, to_ascii_lowercase, to_ascii_uppercase,
};

verus! {

/// The lowercase letters offered (the letter `k` is not among them).
pub const ALPHABET: &'static str = "abcdefghijlmnopqrstuvwxyz";

/// The digits offered.
pub const NUMBERS: &'static str = "1234567890";

/// The symbols offered.
pub const SYMBOLS: &'static str = "!@#$%^&*-_";

/// Shortest password length accepted.
pub const MIN_LENGTH: usize = 8;

/// Longest password length accepted.
pub const MAX_LENGTH: usize = 24;

/// What the new password is made of.
pub struct PasswordOptions {
    pub length: usize,
    pub lowercase: bool,
    pub uppercase: bool,
    pub numbers: bool,
    pub symbols: bool,
}

impl PasswordOptions {
    /// Options from the user's answers.
    pub fn new(length: usize, lowercase: bool, uppercase: bool, numbers: bool, symbols: bool) -> (o:
        Self)
        ensures
            o.length == length,
            o.lowercase == lowercase,
            o.uppercase == uppercase,
            o.numbers == numbers,
            o.symbols == symbols,
    {
        PasswordOptions { length, lowercase, uppercase, numbers, symbols }
    }
}

/// The characters a password may be drawn from: the lowercase letters, the
/// same letters in uppercase, the digits and the symbols, each where asked
/// for, in that order.
pub open spec fn possible_chars_spec(o: PasswordOptions) -> Seq<char> {
    (if o.lowercase {
        ALPHABET@
    } else {
        Seq::<char>::empty()
    }) + (if o.uppercase {
        ALPHABET@.map_values(|c: char| ascii_upper(c))
    } else {
        Seq::<char>::empty()
    }) + (if o.numbers {
        NUMBERS@
    } else {
        Seq::<char>::empty()
    }) + (if o.symbols {
        SYMBOLS@
    } else {
        Seq::<char>::empty()
    })
}

/// Builds the characters a password may be drawn from.
pub fn possible_chars(options: &PasswordOptions) -> (chars: String)
    ensures
        chars@ == possible_chars_spec(*options),
{
    let mut chars = String::new();
    if options.lowercase {
        chars.append(ALPHABET);
    }
    if options.uppercase {
        let upper = to_ascii_uppercase(ALPHABET);
        chars.append(upper.as_str());
    }
    if options.numbers {
        chars.append(NUMBERS);
    }
    if options.symbols {
        chars.append(SYMBOLS);
    }
    assert(chars@ =~= possible_chars_spec(*options));
    chars
}

/// `rand::thread_rng().gen_range(0, bound)` (rand 0.7): a random index below
/// `bound`. Which one is left open: it is random.
#[verifier::external_body]
fn random_index(bound: usize) -> (i: usize)
    requires
        bound > 0,
    ensures
        i < bound,
{
    rand::thread_rng().gen_range(0, bound)
}

/// The password made of `chars[indices[0]]`, `chars[indices[1]]`, ...
pub fn password_from_indices(chars: &Vec<char>, indices: &Vec<usize>) -> (password: String)
    requires
        forall|i: int| 0 <= i < indices@.len() ==> #[trigger] indices@[i] < chars@.len(),
    ensures
        password@ == Seq::new(indices@.len(), |i: int| chars@[indices@[i] as int]),
{
    let mut password = String::new();
    let mut i: usize = 0;
    while i < indices.len()
        invariant
            0 <= i <= indices@.len(),
            forall|k: int| 0 <= k < indices@.len() ==> #[trigger] indices@[k] < chars@.len(),
            password@ =~= Seq::new(i as nat, |k: int| chars@[indices@[k] as int]),
        decreases indices@.len() - i,
    {
        push_char(&mut password, chars[indices[i]]);
        i = i + 1;
    }
    password
}

/// Generates a password as asked: `None` when no kind of character was
/// asked for, otherwise `options.length` characters each drawn at random
/// from the possible characters.
pub fn run(options: &PasswordOptions) -> (password: Option<String>)
    ensures
        password is None <==> !(options.lowercase || options.uppercase || options.numbers
            || options.symbols),
        password matches Some(p) ==> p@.len() == options.length,
        password matches Some(p) ==> forall|i: int|
            0 <= i < p@.len() ==> possible_chars_spec(*options).contains(#[trigger] p@[i]),
{
    let possible = possible_chars(options);
    proof {
        reveal_strlit("abcdefghijlmnopqrstuvwxyz");
        reveal_strlit("1234567890");
        reveal_strlit("!@#$%^&*-_");
    }
    let chars = chars_of(possible.as_str());
    if chars.len() == 0 {
        return None;
    }
    let mut indices: Vec<usize> = Vec::new();
    let mut i: usize = 0;
    while i < options.length
        invariant
            0 <= i <= options.length,
            chars@.len() > 0,
            indices@.len() == i,
            forall|k: int| 0 <= k < indices@.len() ==> #[trigger] indices@[k] < chars@.len(),
        decreases options.length - i,
    {
        let index = random_index(chars.len());
        indices.push(index);
        i = i + 1;
    }
    let password = password_from_indices(&chars, &indices);
    assert forall|k: int| 0 <= k < password@.len() implies possible_chars_spec(*options).contains(
        #[trigger] password@[k],
    ) by {
        assert(possible_chars_spec(*options)[indices@[k] as int] == password@[k]);
    }
    Some(password)
}

/// Why an answer to the length question was refused.
pub enum LengthError {
    /// Not a number (`str::parse::<usize>` fails).
    NotANumber,
    /// A number outside `8..=24`.
    OutOfRange,
}

/// The answer to the length question: a number in `8..=24` as
/// `str::parse::<usize>` reads it.
pub open spec fn length_answer(answer: Seq<char>) -> Result<usize, LengthError> {
    match parse_unsigned(answer, usize::MAX as nat) {
        None => Err(LengthError::NotANumber),
        Some(n) => if MIN_LENGTH <= n <= MAX_LENGTH {
            Ok(n as usize)
        } else {
            Err(LengthError::OutOfRange)
        },
    }
}

/// Reads the answer to the length question.
pub fn parse_length(answer: &str) -> (r: Result<usize, LengthError>)
    ensures
        r == length_answer(answer@),
{
    let chars = chars_of(answer);
    proof {
        assert(chars@.subrange(0, chars@.len() as int) =~= answer@);
    }
    match parse_unsigned_range(&chars, 0, chars.len(), usize::MAX as u64) {
        None => Err(LengthError::NotANumber),
        Some(n) => {
            if MIN_LENGTH as u64 <= n && n <= MAX_LENGTH as u64 {
                Ok(n as usize)
            } else {
                Err(LengthError::OutOfRange)
            }
        },
    }
}

/// The answer to a yes/no question, case aside: `yes` or `y` is `true`,
/// `no` or `n` is `false`, anything else is refused.
pub open spec fn yes_no_answer(answer: Seq<char>) -> Option<bool> {
    let a = answer.map_values(|c: char| ascii_lower(c));
    if a == seq!['y', 'e', 's'] || a == seq!['y'] {
        Some(true)
    } else if a == seq!['n', 'o'] || a == seq!['n'] {
        Some(false)
    } else {
        None
    }
}

/// Reads the answer to a yes/no question.
pub fn parse_yes_no(answer: &str) -> (r: Option<bool>)
    ensures
        r == yes_no_answer(answer@),
{
    let a = to_ascii_lowercase(answer);
    let n = a.len();
    if (n == 3 && a[0] == 'y' && a[1] == 'e' && a[2] == 's') || (n == 1 && a[0] == 'y') {
        assert(a@ =~= seq!['y', 'e', 's'] || a@ =~= seq!['y']);
        Some(true)
    } else if (n == 2 && a[0] == 'n' && a[1] == 'o') || (n == 1 && a[0] == 'n') {
        assert(a@ =~= seq!['n', 'o'] || a@ =~= seq!['n']);
        Some(false)
    } else {
        proof {
            if a@ == seq!['y', 'e', 's'] {
                assert(a@[0] == 'y');
            }
        }
        None
    }
}

/// An ASCII lowercase letter.
pub open spec fn is_lower_letter(c: char) -> bool {
    'a' <= c && c <= 'z'
}

/// An ASCII uppercase letter.
pub open spec fn is_upper_letter(c: char) -> bool {
    'A' <= c && c <= 'Z'
}

/// One of the ten symbols a password may hold.
pub open spec fn is_symbol(c: char) -> bool {
    c == '!' || c == '@' || c == '#' || c == '$' || c == '%' || c == '^' || c == '&' || c == '*'
        || c == '-' || c == '_'
}

/// The kind of a character, in the order the kinds are offered: lowercase
/// letters, uppercase letters, digits, symbols.
pub open spec fn kind_rank(c: char) -> int {
    if is_lower_letter(c) {
        0
    } else if is_upper_letter(c) {
        1
    } else if is_digit(c) {
        2
    } else {
        3
    }
}

proof fn lemma_offered_chars()
    ensures
        ALPHABET@.len() == 25,
        NUMBERS@.len() == 10,
        SYMBOLS@.len() == 10,
        forall|i: int| 0 <= i < 25 ==> is_lower_letter(#[trigger] ALPHABET@[i]),
        forall|i: int| 0 <= i < 25 ==> is_upper_letter(ascii_upper(#[trigger] ALPHABET@[i])),
        forall|i: int| 0 <= i < 10 ==> is_digit(#[trigger] NUMBERS@[i]),
        forall|i: int| 0 <= i < 10 ==> is_symbol(#[trigger] SYMBOLS@[i]),
        forall|c: char| is_lower_letter(c) && c != 'k' ==> #[trigger] ALPHABET@.contains(c),
        forall|c: char| is_digit(c) ==> #[trigger] NUMBERS@.contains(c),
        forall|c: char| is_symbol(c) ==> #[trigger] SYMBOLS@.contains(c),
{
    reveal_strlit("abcdefghijlmnopqrstuvwxyz");
    reveal_strlit("1234567890");
    reveal_strlit("!@#$%^&*-_");
    assert(ALPHABET@ =~= seq![
        'a', 'b', 'c', 'd', 'e', 'f', 'g', 'h', 'i', 'j', 'l', 'm', 'n', 'o', 'p', 'q', 'r', 's',
        't', 'u', 'v', 'w', 'x', 'y', 'z',
    ]);
    assert(NUMBERS@ =~= seq!['1', '2', '3', '4', '5', '6', '7', '8', '9', '0']);
    assert(SYMBOLS@ =~= seq!['!', '@', '#', '$', '%', '^', '&', '*', '-', '_']);
    assert forall|c: char| is_lower_letter(c) && c != 'k' implies #[trigger] ALPHABET@.contains(
        c,
    ) by {
        let j: int = if (c as int) < ('k' as int) {
            (c as int) - ('a' as int)
        } else {
            (c as int) - ('a' as int) - 1
        };
        assert(ALPHABET@[j] == c);
    }
    assert forall|c: char| is_digit(c) implies #[trigger] NUMBERS@.contains(c) by {
        let j: int = if c == '0' {
            9
        } else {
            (c as int) - ('1' as int)
        };
        assert(NUMBERS@[j] == c);
    }
    assert forall|c: char| is_symbol(c) implies #[trigger] SYMBOLS@.contains(c) by {
        if c == '!' { assert(SYMBOLS@[0] == c); }
        else if c == '@' { assert(SYMBOLS@[1] == c); }
        else if c == '#' { assert(SYMBOLS@[2] == c); }
        else if c == '$' { assert(SYMBOLS@[3] == c); }
        else if c == '%' { assert(SYMBOLS@[4] == c); }
        else if c == '^' { assert(SYMBOLS@[5] == c); }
        else if c == '&' { assert(SYMBOLS@[6] == c); }
        else if c == '*' { assert(SYMBOLS@[7] == c); }
        else if c == '-' { assert(SYMBOLS@[8] == c); }
        else { assert(SYMBOLS@[9] == c); }
    }
}

/// What the possible characters hold, kind by kind: a character of a kind
/// appears only when that kind was asked for; every asked kind appears
/// whole (all ten digits, all ten symbols, every letter but `k` in the
/// asked cases); the kinds come in the order lowercase, uppercase, digits,
/// symbols; and the count is 25, 25, 10 and 10 per asked kind.
pub proof fn law_possible_chars(o: PasswordOptions)
    ensures
        ({
            let p = possible_chars_spec(o);
            &&& p.len() == (if o.lowercase { 25int } else { 0 }) + (if o.uppercase { 25int } else {
                0
            }) + (if o.numbers { 10int } else { 0 }) + (if o.symbols { 10int } else { 0 })
            &&& forall|i: int|
                0 <= i < p.len() ==> {
                    &&& is_lower_letter(#[trigger] p[i]) ==> o.lowercase
                    &&& is_upper_letter(p[i]) ==> o.uppercase
                    &&& is_digit(p[i]) ==> o.numbers
                    &&& is_symbol(p[i]) ==> o.symbols
                    &&& is_lower_letter(p[i]) || is_upper_letter(p[i]) || is_digit(p[i])
                        || is_symbol(p[i])
                }
            &&& forall|i: int, j: int|
                0 <= i < j < p.len() ==> kind_rank(#[trigger] p[i]) <= kind_rank(#[trigger] p[j])
            &&& forall|c: char| is_digit(c) && o.numbers ==> #[trigger] p.contains(c)
            &&& forall|c: char| is_symbol(c) && o.symbols ==> #[trigger] p.contains(c)
            &&& forall|c: char|
                is_lower_letter(c) && c != 'k' && o.lowercase ==> #[trigger] p.contains(c)
            &&& forall|c: char|
                is_upper_letter(c) && c != 'K' && o.uppercase ==> #[trigger] p.contains(c)
        }),
{
    lemma_offered_chars();
    let a = if o.lowercase { ALPHABET@ } else { Seq::<char>::empty() };
    let upper = ALPHABET@.map_values(|c: char| ascii_upper(c));
    let b = if o.uppercase { upper } else { Seq::<char>::empty() };
    let c = if o.numbers { NUMBERS@ } else { Seq::<char>::empty() };
    let d = if o.symbols { SYMBOLS@ } else { Seq::<char>::empty() };
    let p = possible_chars_spec(o);
    assert(p == a + b + c + d);
    assert forall|i: int| 0 <= i < a.len() implies kind_rank(#[trigger] a[i]) == 0 && is_lower_letter(a[i]) by {}
    assert forall|i: int| 0 <= i < b.len() implies kind_rank(#[trigger] b[i]) == 1 && is_upper_letter(b[i]) by {
        assert(upper[i] == ascii_upper(ALPHABET@[i]));
    }
    assert forall|i: int| 0 <= i < c.len() implies kind_rank(#[trigger] c[i]) == 2 && is_digit(c[i]) by {}
    assert forall|i: int| 0 <= i < d.len() implies kind_rank(#[trigger] d[i]) == 3 && is_symbol(d[i]) by {}
    let la = a.len() as int;
    let lb = b.len() as int;
    let lc = c.len() as int;
    assert forall|i: int| 0 <= i < p.len() implies kind_rank(#[trigger] p[i]) == (if i < la { 0int }
        else if i < la + lb { 1int } else if i < la + lb + lc { 2int } else { 3int }) && (
        if i < la { is_lower_letter(p[i]) } else if i < la + lb { is_upper_letter(p[i]) }
        else if i < la + lb + lc { is_digit(p[i]) } else { is_symbol(p[i]) }) by {
        if i < la {
            assert(p[i] == a[i]);
        } else if i < la + lb {
            assert(p[i] == b[i - la]);
        } else if i < la + lb + lc {
            assert(p[i] == c[i - la - lb]);
        } else {
            assert(p[i] == d[i - la - lb - lc]);
        }
    }
    assert forall|x: char| is_digit(x) && o.numbers implies #[trigger] p.contains(x) by {
        assert(NUMBERS@.contains(x));
        let j = choose|j: int| 0 <= j < NUMBERS@.len() && NUMBERS@[j] == x;
        assert(p[la + lb + j] == x);
    }
    assert forall|x: char| is_symbol(x) && o.symbols implies #[trigger] p.contains(x) by {
        assert(SYMBOLS@.contains(x));
        let j = choose|j: int| 0 <= j < SYMBOLS@.len() && SYMBOLS@[j] == x;
        assert(p[la + lb + lc + j] == x);
    }
    assert forall|x: char| is_lower_letter(x) && x != 'k' && o.lowercase implies #[trigger] p.contains(x) by {
        assert(ALPHABET@.contains(x));
        let j = choose|j: int| 0 <= j < ALPHABET@.len() && ALPHABET@[j] == x;
        assert(p[j] == x);
    }
    assert forall|x: char| is_upper_letter(x) && x != 'K' && o.uppercase implies #[trigger] p.contains(x) by {
        let y = ((x as int) + 32) as char;
        assert(is_lower_letter(y) && y != 'k');
        assert(ALPHABET@.contains(y));
        let j = choose|j: int| 0 <= j < ALPHABET@.len() && ALPHABET@[j] == y;
        assert(upper[j] == ascii_upper(y));
        assert(ascii_upper(y) == x);
        assert(p[la + j] == x);
    }
}

/// Every length from 8 to 24 written in decimal is read as itself, with or
/// without a leading `'+'`; every other number that fits a `usize` is out
/// of range.
pub proof fn law_length_answers(n: nat)
    requires
        n <= usize::MAX,
    ensures
        8 <= n <= 24 ==> length_answer(decimal(n)) == Ok::<usize, LengthError>(n as usize),
        8 <= n <= 24 ==> length_answer(seq!['+'] + decimal(n)) == Ok::<usize, LengthError>(
            n as usize,
        ),
        !(8 <= n <= 24) ==> length_answer(decimal(n)) == Err::<usize, LengthError>(
            LengthError::OutOfRange,
        ),
{
    lemma_parse_decimal(n, usize::MAX as nat);
    crate::text::lemma_decimal(n);
    let t = seq!['+'] + decimal(n);
    assert(t[0] == '+');
    assert(t.drop_first() =~= decimal(n));
    assert(is_digit(decimal(n)[0]));
    assert(crate::text::unsigned_digits(t) == crate::text::unsigned_digits(decimal(n)));
}

/// An answer holding a character that is neither a digit nor `'+'` is not a
/// number.
pub proof fn law_length_needs_digits(answer: Seq<char>, i: int)
    requires
        0 <= i < answer.len(),
        !is_digit(answer[i]),
        answer[i] != '+',
    ensures
        length_answer(answer) == Err::<usize, LengthError>(LengthError::NotANumber),
{
    let ds = if answer.len() > 0 && answer[0] == '+' { answer.drop_first() } else { answer };
    if answer.len() > 0 && answer[0] == '+' {
        assert(ds[i - 1] == answer[i]);
    } else {
        assert(ds[i] == answer[i]);
    }
}

} // verus!
