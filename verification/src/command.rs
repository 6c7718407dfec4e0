//! The command grammar: a protocol line is trimmed, split on single spaces,
//! and matched case-insensitively against the verb set.

use vstd::prelude::*;

verus! {

/// The operation a protocol line requests. `Unknown` is only a transient
/// parsing sentinel: `Command::from_str` never returns a command carrying it.
#[derive(Debug, Clone, Copy, PartialEq, Eq, Structural)]
pub enum Type {
    SetOp,
    Get,
    Update,
    Delete,
    Ping,
    Exit,
    Unknown,
}

/// Uppercases an ASCII lowercase letter; leaves every other character as it is.
pub open spec fn upper_char(c: char) -> char {
    match c {
        'a' => 'A',
        'b' => 'B',
        'c' => 'C',
        'd' => 'D',
        'e' => 'E',
        'f' => 'F',
        'g' => 'G',
        'h' => 'H',
        'i' => 'I',
        'j' => 'J',
        'k' => 'K',
        'l' => 'L',
        'm' => 'M',
        'n' => 'N',
        'o' => 'O',
        'p' => 'P',
        'q' => 'Q',
        'r' => 'R',
        's' => 'S',
        't' => 'T',
        'u' => 'U',
        'v' => 'V',
        'w' => 'W',
        'x' => 'X',
        'y' => 'Y',
        'z' => 'Z',
        _ => c,
    }
}

/// Uppercases every ASCII lowercase letter of a character sequence.
pub open spec fn upper_seq(s: Seq<char>) -> Seq<char> {
    s.map_values(|c: char| upper_char(c))
}

/// Uppercases an ASCII lowercase letter in executable code.
pub fn upper_char_exec(c: char) -> (r: char)
    ensures
        r == upper_char(c),
{
    match c {
        'a' => 'A',
        'b' => 'B',
        'c' => 'C',
        'd' => 'D',
        'e' => 'E',
        'f' => 'F',
        'g' => 'G',
        'h' => 'H',
        'i' => 'I',
        'j' => 'J',
        'k' => 'K',
        'l' => 'L',
        'm' => 'M',
        'n' => 'N',
        'o' => 'O',
        'p' => 'P',
        'q' => 'Q',
        'r' => 'R',
        's' => 'S',
        't' => 'T',
        'u' => 'U',
        'v' => 'V',
        'w' => 'W',
        'x' => 'X',
        'y' => 'Y',
        'z' => 'Z',
        _ => c,
    }
}

/// The whitespace characters stripped from the ends of a protocol line.
pub open spec fn is_ws(c: char) -> bool {
    c == ' ' || c == '\t' || c == '\n' || c == '\r' || c == '\u{b}' || c == '\u{c}'
}

/// Drops every leading whitespace character.
pub open spec fn trim_front(s: Seq<char>) -> Seq<char>
    decreases s.len(),
{
    if s.len() > 0 && is_ws(s[0]) {
        trim_front(s.drop_first())
    } else {
        s
    }
}

/// Drops every trailing whitespace character.
pub open spec fn trim_back(s: Seq<char>) -> Seq<char>
    decreases s.len(),
{
    if s.len() > 0 && is_ws(s.last()) {
        trim_back(s.drop_last())
    } else {
        s
    }
}

/// A protocol line with its surrounding whitespace stripped.
pub open spec fn trim_spec(s: Seq<char>) -> Seq<char> {
    trim_back(trim_front(s))
}

proof fn lemma_trim_front_exact(s: Seq<char>, i: int)
    requires
        0 <= i <= s.len(),
        forall|k: int| 0 <= k < i ==> is_ws(s[k]),
        i == s.len() || !is_ws(s[i]),
    ensures
        trim_front(s) == s.subrange(i, s.len() as int),
    decreases i,
{
    if i == 0 {
        assert(s.subrange(0, s.len() as int) =~= s);
    } else {
        lemma_trim_front_exact(s.drop_first(), i - 1);
        assert(s.drop_first().subrange(i - 1, s.drop_first().len() as int) =~= s.subrange(
            i,
            s.len() as int,
        ));
    }
}

proof fn lemma_trim_back_exact(s: Seq<char>, j: int)
    requires
        0 <= j <= s.len(),
        forall|k: int| j <= k < s.len() ==> is_ws(s[k]),
        j == 0 || !is_ws(s[j - 1]),
    ensures
        trim_back(s) == s.subrange(0, j),
    decreases s.len() - j,
{
    if j == s.len() {
        if s.len() > 0 && is_ws(s.last()) {
            assert(!is_ws(s[j - 1]));
            assert(false);
        }
        assert(s.subrange(0, j) =~= s);
    } else {
        assert(is_ws(s.last()));
        lemma_trim_back_exact(s.drop_last(), j);
        assert(s.drop_last().subrange(0, j) =~= s.subrange(0, j));
    }
}

/// Strips surrounding whitespace from a line, as `trim_spec` describes.
pub fn trim(s: &str) -> (r: &str)
    ensures
        r@ == trim_spec(s@),
{
    let n = s.unicode_len();
    let mut a: usize = 0;
    while a < n && is_ws_exec(s.get_char(a))
        invariant
            0 <= a <= n,
            n == s@.len(),
            forall|k: int| 0 <= k < a ==> is_ws(s@[k]),
        decreases n - a,
    {
        a = a + 1;
    }
    proof {
        lemma_trim_front_exact(s@, a as int);
    }
    let mut b: usize = n;
    while b > a && is_ws_exec(s.get_char(b - 1))
        invariant
            a <= b <= n,
            n == s@.len(),
            forall|k: int| b <= k < n ==> is_ws(s@[k]),
        decreases b,
    {
        b = b - 1;
    }
    let r = s.substring_char(a, b);
    proof {
        let front = s@.subrange(a as int, n as int);
        lemma_trim_back_exact(front, b - a);
        assert(front.subrange(0, b - a) =~= s@.subrange(a as int, b as int));
    }
    r
}

/// Tests a character for membership in the trimmed whitespace set.
pub fn is_ws_exec(c: char) -> (r: bool)
    ensures
        r == is_ws(c),
{
    c == ' ' || c == '\t' || c == '\n' || c == '\r' || c == '\u{b}' || c == '\u{c}'
}

/// Index of the first space in a sequence, or its length if there is none.
pub open spec fn first_space(s: Seq<char>) -> int
    decreases s.len(),
{
    if s.len() == 0 {
        0
    } else if s[0] == ' ' {
        0
    } else {
        1 + first_space(s.drop_first())
    }
}

proof fn lemma_first_space_range(s: Seq<char>)
    ensures
        0 <= first_space(s) <= s.len(),
    decreases s.len(),
{
    if s.len() > 0 && s[0] != ' ' {
        lemma_first_space_range(s.drop_first());
    }
}

/// Splits a sequence on every single space. Consecutive spaces yield empty
/// tokens, and the empty sequence yields one empty token, as `str::split(' ')`
/// does.
pub open spec fn split_spaces(s: Seq<char>) -> Seq<Seq<char>>
    decreases s.len(),
    via split_spaces_decreases
{
    let i = first_space(s);
    if i == s.len() {
        seq![s]
    } else {
        seq![s.subrange(0, i)] + split_spaces(s.subrange(i + 1, s.len() as int))
    }
}

#[via_fn]
proof fn split_spaces_decreases(s: Seq<char>) {
    lemma_first_space_range(s);
}

proof fn lemma_first_space_exact(s: Seq<char>, i: int)
    requires
        0 <= i <= s.len(),
        forall|k: int| 0 <= k < i ==> s[k] != ' ',
        i == s.len() || s[i] == ' ',
    ensures
        first_space(s) == i,
    decreases i,
{
    if i == 0 {
    } else {
        lemma_first_space_exact(s.drop_first(), i - 1);
    }
}

/// The views of a vector of borrowed tokens.
pub open spec fn views_of(ts: Seq<&str>) -> Seq<Seq<char>> {
    ts.map_values(|t: &str| t@)
}

/// Splits a line on single spaces into borrowed tokens, as `split_spaces`
/// describes. At least one token always comes back.
pub fn split_tokens<'a>(s: &'a str) -> (toks: Vec<&'a str>)
    ensures
        views_of(toks@) == split_spaces(s@),
        toks@.len() >= 1,
{
    let n = s.unicode_len();
    let mut toks: Vec<&'a str> = Vec::new();
    let mut start: usize = 0;
    proof {
        assert(s@.subrange(0, n as int) =~= s@);
        assert(views_of(toks@) =~= Seq::<Seq<char>>::empty());
    }
    loop
        invariant_except_break
            0 <= start <= n,
            n == s@.len(),
            split_spaces(s@) == views_of(toks@) + split_spaces(
                s@.subrange(start as int, n as int),
            ),
        ensures
            views_of(toks@) == split_spaces(s@),
            toks@.len() >= 1,
        decreases n - start,
    {
        let ghost rest = s@.subrange(start as int, n as int);
        let mut j = start;
        while j < n && s.get_char(j) != ' '
            invariant
                start <= j <= n,
                n == s@.len(),
                forall|k: int| start <= k < j ==> s@[k] != ' ',
            decreases n - j,
        {
            j = j + 1;
        }
        proof {
            assert forall|k: int| 0 <= k < j - start implies rest[k] != ' ' by {
                assert(rest[k] == s@[start + k]);
            }
            lemma_first_space_exact(rest, j - start);
        }
        let tok = s.substring_char(start, j);
        let ghost old_toks = toks@;
        toks.push(tok);
        proof {
            assert(views_of(toks@) =~= views_of(old_toks).push(tok@));
        }
        if j == n {
            proof {
                assert(tok@ =~= rest);
                assert(split_spaces(rest) == seq![rest]);
                assert(views_of(old_toks) + split_spaces(rest) =~= views_of(old_toks).push(
                    rest,
                ));
                assert(views_of(toks@) == split_spaces(s@));
            }
            break ;
        }
        proof {
            let rest2 = rest.subrange(j - start + 1, rest.len() as int);
            assert(tok@ =~= rest.subrange(0, j - start));
            assert(split_spaces(rest) == seq![rest.subrange(0, j - start)] + split_spaces(
                rest2,
            ));
            assert(rest2 =~= s@.subrange(j + 1, n as int));
            assert(views_of(old_toks) + split_spaces(rest) =~= views_of(toks@) + split_spaces(
                rest2,
            ));
        }
        start = j + 1;
    }
    toks
}

/// A decimal digit character.
pub open spec fn is_digit(c: char) -> bool {
    48 <= c as u32 && c as u32 <= 57
}

/// The numeric value of a decimal digit character.
pub open spec fn digit_val(c: char) -> int {
    c as u32 - 48
}

/// Every character of the sequence is a decimal digit.
pub open spec fn all_digits(s: Seq<char>) -> bool {
    forall|i: int| 0 <= i < s.len() ==> is_digit(s[i])
}

/// The unbounded numeric value of a digit string, most significant first.
pub open spec fn digits_val(s: Seq<char>) -> int
    decreases s.len(),
{
    if s.len() == 0 {
        0
    } else {
        digits_val(s.drop_last()) * 10 + digit_val(s.last())
    }
}

pub proof fn lemma_digits_val_nonneg(s: Seq<char>)
    requires
        all_digits(s),
    ensures
        digits_val(s) >= 0,
    decreases s.len(),
{
    if s.len() > 0 {
        assert(all_digits(s.drop_last()));
        lemma_digits_val_nonneg(s.drop_last());
    }
}

/// Appending digits never shrinks the value of a digit string.
pub proof fn lemma_digits_val_prefix(s: Seq<char>, k: int)
    requires
        all_digits(s),
        0 <= k <= s.len(),
    ensures
        digits_val(s) >= digits_val(s.subrange(0, k)),
    decreases s.len() - k,
{
    if k == s.len() {
        assert(s.subrange(0, k) =~= s);
    } else {
        lemma_digits_val_prefix(s, k + 1);
        let p1 = s.subrange(0, k + 1);
        let p0 = s.subrange(0, k);
        assert(p1.drop_last() =~= p0);
        assert(all_digits(p0));
        lemma_digits_val_nonneg(p0);
        assert(digits_val(p1) == digits_val(p0) * 10 + digit_val(s[k]));
    }
}

/// The digits of a token after an optional leading sign.
pub open spec fn sign_digits(s: Seq<char>) -> Seq<char> {
    if s.len() > 0 && (s[0] == '-' || s[0] == '+') {
        s.drop_first()
    } else {
        s
    }
}

/// Whether the token carries a leading minus sign.
pub open spec fn sign_neg(s: Seq<char>) -> bool {
    s.len() > 0 && s[0] == '-'
}

/// The value of a signed decimal token, exactly as `str::parse::<i64>` reads
/// it: an optional sign, then one or more digits; anything else, or a value
/// outside the range of `i64`, is rejected.
pub open spec fn parse_i64_spec(s: Seq<char>) -> Option<i64> {
    let digits = sign_digits(s);
    if digits.len() == 0 || !all_digits(digits) {
        Option::None
    } else {
        let m = digits_val(digits);
        if !sign_neg(s) && m <= i64::MAX {
            Option::Some(m as i64)
        } else if sign_neg(s) && m <= 9223372036854775808 {
            Option::Some((-m) as i64)
        } else {
            Option::None
        }
    }
}

/// Reads a signed 64-bit decimal token, as `parse_i64_spec` describes.
pub fn parse_i64(s: &str) -> (r: Option<i64>)
    ensures
        r == parse_i64_spec(s@),
{
    let n = s.unicode_len();
    let mut i: usize = 0;
    let mut neg = false;
    if n > 0 {
        let c0 = s.get_char(0);
        if c0 == '-' {
            neg = true;
            i = 1;
        } else if c0 == '+' {
            i = 1;
        }
    }
    let ghost digits = sign_digits(s@);
    proof {
        assert(digits =~= s@.subrange(i as int, n as int));
        assert(sign_neg(s@) == neg);
    }
    if i >= n {
        return Option::None;
    }
    let ghost dstart = i as int;
    let limit: u64 = if neg {
        9223372036854775808
    } else {
        9223372036854775807
    };
    let mut acc: u64 = 0;
    while i < n
        invariant
            0 <= dstart <= i <= n,
            n == s@.len(),
            digits == sign_digits(s@),
            digits == s@.subrange(dstart, n as int),
            digits.len() > 0,
            neg == sign_neg(s@),
            limit == if neg {
                9223372036854775808u64
            } else {
                9223372036854775807u64
            },
            forall|k: int| dstart <= k < i ==> is_digit(s@[k]),
            acc <= limit,
            acc == digits_val(s@.subrange(dstart, i as int)),
        decreases n - i,
    {
        let c = s.get_char(i);
        let u = c as u32;
        if u < 48 || u > 57 {
            proof {
                assert(s@.subrange(dstart, n as int)[i - dstart] == s@[i as int]);
                assert(!is_digit(digits[i - dstart]));
                assert(!all_digits(digits));
            }
            return Option::None;
        }
        let d = (u - 48) as u64;
        let wide: u128 = acc as u128 * 10 + d as u128;
        let ghost prefix1 = s@.subrange(dstart, i + 1);
        proof {
            assert(prefix1.drop_last() =~= s@.subrange(dstart, i as int));
            assert(digits_val(prefix1) == acc * 10 + d);
        }
        if wide > limit as u128 {
            proof {
                assert forall|k: int| 0 <= k < digits.len() implies is_digit(digits[k]) || !all_digits(
                    digits,
                ) by {}
                if all_digits(digits) {
                    assert(prefix1 =~= digits.subrange(0, i + 1 - dstart));
                    lemma_digits_val_prefix(digits, i + 1 - dstart);
                    assert(digits_val(digits) > limit);
                }
            }
            return Option::None;
        }
        acc = wide as u64;
        i = i + 1;
    }
    proof {
        assert(s@.subrange(dstart, n as int) =~= digits);
        assert(acc == digits_val(digits));
        assert(all_digits(digits));
    }
    if neg {
        if acc == 9223372036854775808 {
            Option::Some(i64::MIN)
        } else {
            Option::Some(-(acc as i64))
        }
    } else {
        Option::Some(acc as i64)
    }
}

/// Whether a token equals a verb after ASCII-uppercasing the token.
pub fn upper_eq(tok: &str, pat: &str) -> (r: bool)
    ensures
        r == (upper_seq(tok@) == pat@),
{
    let tn = tok.unicode_len();
    let pn = pat.unicode_len();
    if tn != pn {
        proof {
            assert(upper_seq(tok@).len() == tok@.len());
        }
        return false;
    }
    let mut i: usize = 0;
    while i < tn
        invariant
            0 <= i <= tn,
            tn == tok@.len(),
            tn == pat@.len(),
            forall|k: int| 0 <= k < i ==> upper_char(#[trigger] tok@[k]) == pat@[k],
        decreases tn - i,
    {
        if upper_char_exec(tok.get_char(i)) != pat.get_char(i) {
            proof {
                assert(upper_seq(tok@)[i as int] != pat@[i as int]);
            }
            return false;
        }
        i = i + 1;
    }
    proof {
        assert(upper_seq(tok@) =~= pat@);
    }
    true
}

/// The operation a verb token names, after case folding; `Unknown` if none.
pub open spec fn verb_of(tok: Seq<char>) -> Type {
    if upper_seq(tok) == "SET"@ {
        Type::SetOp
    } else if upper_seq(tok) == "GET"@ {
        Type::Get
    } else if upper_seq(tok) == "UPDATE"@ {
        Type::Update
    } else if upper_seq(tok) == "DELETE"@ {
        Type::Delete
    } else if upper_seq(tok) == "PING"@ {
        Type::Ping
    } else if upper_seq(tok) == "EXIT"@ {
        Type::Exit
    } else {
        Type::Unknown
    }
}

/// Matches a verb token against the verb set, as `verb_of` describes.
pub fn match_verb(tok: &str) -> (r: Type)
    ensures
        r == verb_of(tok@),
{
    if upper_eq(tok, "SET") {
        Type::SetOp
    } else if upper_eq(tok, "GET") {
        Type::Get
    } else if upper_eq(tok, "UPDATE") {
        Type::Update
    } else if upper_eq(tok, "DELETE") {
        Type::Delete
    } else if upper_eq(tok, "PING") {
        Type::Ping
    } else if upper_eq(tok, "EXIT") {
        Type::Exit
    } else {
        Type::Unknown
    }
}

/// Verb recognition is case-insensitive: a token and its ASCII-uppercased
/// form name the same operation.
pub proof fn lemma_verb_case_insensitive(tok: Seq<char>)
    ensures
        verb_of(upper_seq(tok)) == verb_of(tok),
{
    assert forall|c: char| #[trigger] upper_char(upper_char(c)) == upper_char(c) by {}
    assert(upper_seq(upper_seq(tok)) =~= upper_seq(tok));
}

/// The token at a position, or the empty token past the end.
pub open spec fn tok_at(toks: Seq<Seq<char>>, i: int) -> Seq<char> {
    if 0 <= i < toks.len() {
        toks[i]
    } else {
        Seq::empty()
    }
}

/// The error text reported for an unrecognised verb token.
pub open spec fn unknown_message(tok: Seq<char>) -> Seq<char> {
    "Invalid command name `"@ + tok + "`"@
}

/// The error text reported for a line whose verb is known but whose required
/// fields are missing or whose expiry token is not a number.
pub open spec fn malformed_message(line: Seq<char>) -> Seq<char> {
    "Invalid command "@ + line
}

/// The mathematical content of a parsed command.
pub ghost struct SpecCommand {
    pub name: Type,
    pub key: Seq<char>,
    pub value: Seq<char>,
    pub expire: i64,
}

/// The outcome of parsing one protocol line: trim, split on single spaces,
/// match the verb case-insensitively, pad missing positions with empty
/// tokens, default the expiry token to `0`, enforce the arity of each verb,
/// and read the expiry as a signed 64-bit number. Extra tokens are ignored.
pub open spec fn parse_spec(line: Seq<char>) -> Result<SpecCommand, Seq<char>> {
    let toks = split_spaces(trim_spec(line));
    let verb = verb_of(tok_at(toks, 0));
    if verb == Type::Unknown {
        Result::Err(unknown_message(tok_at(toks, 0)))
    } else {
        let key = tok_at(toks, 1);
        let value = tok_at(toks, 2);
        let etok = if tok_at(toks, 3).len() == 0 {
            seq!['0']
        } else {
            tok_at(toks, 3)
        };
        if ((verb == Type::Get || verb == Type::Delete) && key.len() == 0) || ((verb
            == Type::SetOp || verb == Type::Update) && (key.len() == 0 || value.len() == 0)) {
            Result::Err(malformed_message(line))
        } else {
            match parse_i64_spec(etok) {
                Option::None => Result::Err(malformed_message(line)),
                Option::Some(e) => Result::Ok(
                    SpecCommand { name: verb, key: key, value: value, expire: e },
                ),
            }
        }
    }
}

/// A parsed, validated client request.
#[derive(Debug)]
pub struct Command {
    key: String,
    value: String,
    expire: i64,
    name: Type,
}

impl View for Command {
    type V = SpecCommand;

    closed spec fn view(&self) -> SpecCommand {
        SpecCommand { name: self.name, key: self.key@, value: self.value@, expire: self.expire }
    }
}

impl Command {
    /// Builds a command directly from its fields.
    pub fn new(key: &str, value: &str, expire: i64, name: Type) -> (r: Command)
        ensures
            r@ == (SpecCommand { name: name, key: key@, value: value@, expire: expire }),
    {
        Command {
            key: String::from_str(key),
            value: String::from_str(value),
            expire: expire,
            name: name,
        }
    }

    /// Parses one protocol line, as `parse_spec` describes. A command that
    /// comes back never carries the `Unknown` sentinel.
    pub fn from_str(cmd: &str) -> (r: Result<Command, String>)
        ensures
            match r {
                Result::Ok(c) => parse_spec(cmd@) == Result::Ok::<SpecCommand, Seq<char>>(c@)
                    && c@.name != Type::Unknown,
                Result::Err(e) => parse_spec(cmd@) == Result::Err::<SpecCommand, Seq<char>>(e@),
            },
    {
        let trimmed = trim(cmd);
        let toks = split_tokens(trimmed);
        let ghost stoks = split_spaces(trim_spec(cmd@));
        proof {
            assert(tok_at(stoks, 0) == toks@[0]@);
        }
        let name_val = match_verb(&toks[0]);
        if name_val == Type::Unknown {
            let mut msg = String::from_str("Invalid command name `");
            msg.append(&toks[0]);
            msg.append("`");
            return Result::Err(msg);
        }
        let key_s: &str = if toks.len() > 1 {
            &toks[1]
        } else {
            ""
        };
        let val_s: &str = if toks.len() > 2 {
            &toks[2]
        } else {
            ""
        };
        let exp_raw: &str = if toks.len() > 3 {
            &toks[3]
        } else {
            ""
        };
        proof {
            reveal_strlit("");
            assert(""@ =~= Seq::<char>::empty());
            assert(key_s@ == tok_at(stoks, 1));
            assert(val_s@ == tok_at(stoks, 2));
            assert(exp_raw@ == tok_at(stoks, 3));
        }
        if (name_val == Type::Get || name_val == Type::Delete) && key_s.unicode_len() == 0 {
            return Result::Err(String::from_str("Invalid command ").concat(cmd));
        }
        if (name_val == Type::SetOp || name_val == Type::Update) && (key_s.unicode_len() == 0
            || val_s.unicode_len() == 0) {
            return Result::Err(String::from_str("Invalid command ").concat(cmd));
        }
        let exp_s: &str = if exp_raw.unicode_len() == 0 {
            "0"
        } else {
            exp_raw
        };
        proof {
            reveal_strlit("0");
            assert("0"@ =~= seq!['0']);
        }
        match parse_i64(exp_s) {
            Option::None => Result::Err(String::from_str("Invalid command ").concat(cmd)),
            Option::Some(e) => Result::Ok(
                Command {
                    key: String::from_str(key_s),
                    value: String::from_str(val_s),
                    expire: e,
                    name: name_val,
                },
            ),
        }
    }

    /// The key the command addresses; empty for `PING` and `EXIT`.
    pub fn get_key(&self) -> (r: &String)
        ensures
            r@ == self@.key,
    {
        &self.key
    }

    /// The value the command carries; empty unless it sets or updates.
    pub fn get_value(&self) -> (r: &String)
        ensures
            r@ == self@.value,
    {
        &self.value
    }

    /// The expiry field the command carries; `0` means no expiry.
    pub fn get_expire(&self) -> (r: &i64)
        ensures
            *r == self@.expire,
    {
        &self.expire
    }

    /// The operation the command requests.
    pub fn get_name(&self) -> (r: &Type)
        ensures
            *r == self@.name,
    {
        &self.name
    }

    /// Replaces the key.
    pub fn set_key(&mut self, key: &str)
        ensures
            final(self)@ == (SpecCommand { key: key@, ..old(self)@ }),
    {
        self.key = String::from_str(key);
    }

    /// Replaces the value.
    pub fn set_value(&mut self, value: &str)
        ensures
            final(self)@ == (SpecCommand { value: value@, ..old(self)@ }),
    {
        self.value = String::from_str(value);
    }

    /// Replaces the expiry field.
    pub fn set_expire(&mut self, expire: i64)
        ensures
            final(self)@ == (SpecCommand { expire: expire, ..old(self)@ }),
    {
        self.expire = expire;
    }

    /// Replaces the operation.
    pub fn set_name(&mut self, name: Type)
        ensures
            final(self)@ == (SpecCommand { name: name, ..old(self)@ }),
    {
        self.name = name;
    }
}

} // verus!
