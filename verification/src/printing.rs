//! Sending a document to a printer, and asking a printer what it can do.
//!
//! Everything that decides what gets run is here. The job description comes
//! from the user interface and is treated as untrusted: nothing reaches an
//! argument list without matching a grammar first.

use crate::chars::{
    char_vec, is_alnum, is_digit, lead, lemma_lead_bound, lines, lines_of, skip_while, slice_chars,
    space, spaces, starts_with_chars, string_of, trim_by, trim_chars, words, words_of,
};
use crate::errors::AppError;
use vstd::prelude::*;

verus! {

/// CUPS destination names, option keys and option values are at most this
/// long.
pub const MAX_TOKEN_BYTES: usize = 128;

pub const MAX_COPIES: u32 = 99;

#[derive(Clone, Debug, PartialEq)]
pub struct PrinterDto {
    pub name: String,
    pub is_default: bool,
}

/// One thing a printer can be asked to vary, as it reports it.
#[derive(Clone, Debug, PartialEq)]
pub struct PrintOptionDto {
    /// what CUPS calls it: "Duplex"
    pub key: String,
    /// what a person calls it: "2-Sided Printing"
    pub label: String,
    pub choices: Vec<String>,
    pub default: String,
}

#[derive(Clone, Debug)]
pub struct PrintJobDto {
    pub printer: String,
    pub copies: u32,
    /// None prints everything; otherwise a CUPS page-range list.
    pub range: Option<String>,
    /// Chosen values for the printer's options, as (key, value).
    pub options: Vec<(String, String)>,
}

pub open spec fn token_char(c: char) -> bool {
    is_alnum(c) || c == '.' || c == '_' || c == '-'
}

/// A CUPS name: letters, digits and `.`, `_`, `-`, not starting with a dash
/// (which would read as a flag), at most 128 bytes.
pub open spec fn safe_token(s: Seq<char>) -> bool {
    &&& s.len() > 0
    &&& s.len() <= MAX_TOKEN_BYTES
    &&& s[0] != '-'
    &&& forall|i: int| 0 <= i < s.len() ==> token_char(#[trigger] s[i])
}

pub open spec fn digits_value(s: Seq<char>) -> int
    decreases s.len(),
{
    if s.len() == 0 {
        0
    } else {
        digits_value(s.drop_last()) * 10 + (s.last() as int - '0' as int)
    }
}

/// A page number: one to six digits, not zero.
pub open spec fn page_of(s: Seq<char>) -> Option<int> {
    if 0 < s.len() <= 6 && (forall|i: int| 0 <= i < s.len() ==> is_digit(#[trigger] s[i])) && digits_value(s)
        > 0 {
        Some(digits_value(s))
    } else {
        None
    }
}

pub open spec fn not_dash() -> spec_fn(char) -> bool {
    |c: char| c != '-'
}

pub open spec fn not_comma() -> spec_fn(char) -> bool {
    |c: char| c != ','
}

/// One part of a page-range list: a page, or an ascending `from-to` pair.
pub open spec fn range_part_ok(part: Seq<char>) -> bool {
    let d = lead(part, not_dash()) as int;
    if d >= part.len() {
        page_of(part) is Some
    } else {
        let second = part.skip(d + 1);
        &&& lead(second, not_dash()) >= second.len()
        &&& page_of(part.take(d)) is Some
        &&& page_of(second) is Some
        &&& page_of(second).unwrap() >= page_of(part.take(d)).unwrap()
    }
}

pub open spec fn ranges_ok(s: Seq<char>) -> bool
    decreases s.len(),
{
    let k = lead(s, not_comma()) as int;
    proof {
        lemma_lead_bound(s, not_comma());
    }
    range_part_ok(s.take(k)) && (k >= s.len() || ranges_ok(s.skip(k + 1)))
}

/// A CUPS page-range list: `3`, `2-5`, `1,4,7-9`; no spaces, no open ends.
pub open spec fn page_range(s: Seq<char>) -> bool {
    0 < s.len() <= MAX_TOKEN_BYTES && ranges_ok(s)
}

pub open spec fn digit_char(d: int) -> char {
    ('0' as int + d) as char
}

/// The decimal digits of `n`.
pub open spec fn decimal(n: nat) -> Seq<char>
    decreases n,
{
    if n < 10 {
        seq![digit_char(n as int)]
    } else {
        decimal(n / 10).push(digit_char((n % 10) as int))
    }
}

pub open spec fn option_args(options: Seq<(String, String)>) -> Seq<Seq<char>>
    decreases options.len(),
{
    if options.len() == 0 {
        Seq::empty()
    } else {
        option_args(options.drop_last()) + seq![
            "-o"@,
            options.last().0@ + "="@ + options.last().1@,
        ]
    }
}

/// A chosen printer option whose key and value are both CUPS names.
pub open spec fn option_safe(o: (String, String)) -> bool {
    safe_token(o.0@) && safe_token(o.1@)
}

pub open spec fn options_safe(options: Seq<(String, String)>) -> bool {
    forall|i: int| 0 <= i < options.len() ==> option_safe(#[trigger] options[i])
}

/// Why a job is refused, if it is.
pub open spec fn lp_refusal(job: PrintJobDto, prepared: bool) -> Option<Seq<char>> {
    if !safe_token(job.printer@) {
        Some("printer name is not a CUPS destination"@)
    } else if job.copies == 0 || job.copies > MAX_COPIES {
        Some("copies must be between 1 and 99"@)
    } else if !prepared {
        Some("that file is not a prepared print job"@)
    } else if job.range matches Some(r) && !page_range(r@) {
        Some("page range is malformed"@)
    } else if !options_safe(job.options@) {
        Some("printer option is not a plain CUPS token"@)
    } else {
        None
    }
}

/// The argument list for `lp` for an accepted job.
pub open spec fn lp_args(job: PrintJobDto, path: Seq<char>) -> Seq<Seq<char>> {
    seq!["-d"@, job.printer@, "-n"@, decimal(job.copies as nat)] + (match job.range {
        Some(r) => seq!["-o"@, "page-ranges="@ + r@],
        None => Seq::empty(),
    }) + option_args(job.options@) + seq![path]
}

pub open spec fn strings_view(v: Seq<String>) -> Seq<Seq<char>> {
    v.map_values(|s: String| s@)
}

fn token_char_exec(c: char) -> (r: bool)
    ensures
        r == token_char(c),
{
    crate::chars::ascii_alnum(c) || c == '.' || c == '_' || c == '-'
}

fn is_safe_token_chars(v: &[char]) -> (r: bool)
    ensures
        r == safe_token(v@),
{
    if v.len() == 0 || v.len() > MAX_TOKEN_BYTES || v[0] == '-' {
        return false;
    }
    let mut i: usize = 0;
    while i < v.len()
        invariant
            i <= v@.len(),
            forall|k: int| 0 <= k < i ==> token_char(#[trigger] v@[k]),
        decreases v@.len() - i,
    {
        if !token_char_exec(v[i]) {
            return false;
        }
        i += 1;
    }
    true
}

/// A CUPS name: letters, digits, and the three punctuation marks CUPS allows.
pub fn is_safe_token(value: &str) -> (r: bool)
    ensures
        r == safe_token(value@),
{
    is_safe_token_chars(&char_vec(value))
}

fn page_number(v: &[char], from: usize, to: usize) -> (r: Option<u32>)
    requires
        from <= to <= v@.len(),
    ensures
        match page_of(v@.subrange(from as int, to as int)) {
            Some(n) => r matches Some(x) && x as int == n,
            None => r is None,
        },
{
    let ghost s = v@.subrange(from as int, to as int);
    if from == to || to - from > 6 {
        return None;
    }
    let mut value: u32 = 0;
    let mut i = from;
    while i < to
        invariant
            from <= i <= to <= v@.len(),
            to - from <= 6,
            s == v@.subrange(from as int, to as int),
            forall|k: int| 0 <= k < i - from ==> is_digit(#[trigger] s[k]),
            value == digits_value(s.take(i - from)),
            value < 1_000_000,
        decreases to - i,
    {
        let c = v[i];
        proof {
            assert(s[i - from] == c);
        }
        if !crate::chars::ascii_digit(c) {
            return None;
        }
        proof {
            assert(s.take(i - from + 1).drop_last() =~= s.take(i - from));
            assert(i - from < 6);
            assert(value * 10 + 9 < 1_000_000) by {
                lemma_digits_bound(s.take(i - from));
            }
        }
        value = value * 10 + (c as u32 - '0' as u32);
        i += 1;
    }
    proof {
        assert(s.take(i - from) =~= s);
    }
    if value == 0 {
        return None;
    }
    Some(value)
}

proof fn lemma_digits_bound(s: Seq<char>)
    requires
        s.len() <= 5,
        forall|k: int| 0 <= k < s.len() ==> is_digit(#[trigger] s[k]),
    ensures
        0 <= digits_value(s) < 100_000,
        s.len() <= 4 ==> digits_value(s) < 10_000,
        s.len() <= 3 ==> digits_value(s) < 1_000,
        s.len() <= 2 ==> digits_value(s) < 100,
        s.len() <= 1 ==> digits_value(s) < 10,
    decreases s.len(),
{
    if s.len() > 0 {
        assert forall|k: int| 0 <= k < s.drop_last().len() implies is_digit(#[trigger] s.drop_last()[k]) by {
            assert(s.drop_last()[k] == s[k]);
        }
        lemma_digits_bound(s.drop_last());
        assert(is_digit(s[s.len() - 1]));
    }
}

fn not_dash_char(c: char) -> (r: bool)
    ensures
        r == (c != '-'),
{
    c != '-'
}

fn not_comma_char(c: char) -> (r: bool)
    ensures
        r == (c != ','),
{
    c != ','
}

fn range_part(v: &[char], from: usize, to: usize) -> (r: bool)
    requires
        from <= to <= v@.len(),
    ensures
        r == range_part_ok(v@.subrange(from as int, to as int)),
{
    let ghost part = v@.subrange(from as int, to as int);
    let part_v = slice_chars(v, from, to);
    let d = skip_while(&part_v, 0, not_dash_char, Ghost(not_dash()));
    proof {
        assert(part_v@.skip(0) =~= part_v@);
        lemma_lead_bound(part, not_dash());
    }
    if d >= part_v.len() {
        return page_number(&part_v, 0, part_v.len()).is_some();
    }
    let e = skip_while(&part_v, d + 1, not_dash_char, Ghost(not_dash()));
    proof {
        lemma_lead_bound(part.skip(d + 1), not_dash());
        assert(part_v@.subrange(0, part_v@.len() as int) =~= part);
        assert(part_v@.subrange(0, d as int) =~= part.take(d as int));
        assert(part_v@.subrange(d + 1, part_v@.len() as int) =~= part.skip(d + 1));
    }
    if e < part_v.len() {
        return false;
    }
    let first = page_number(&part_v, 0, d);
    let second = page_number(&part_v, d + 1, part_v.len());
    match (first, second) {
        (Some(a), Some(b)) => b >= a,
        _ => false,
    }
}

/// A CUPS page-range list: `3`, `2-5`, `1,4,7-9`. No spaces, no open ends.
pub fn is_page_range(value: &str) -> (r: bool)
    ensures
        r == page_range(value@),
{
    let v = char_vec(value);
    if v.len() == 0 || v.len() > MAX_TOKEN_BYTES {
        return false;
    }
    let mut i: usize = 0;
    proof {
        assert(v@.skip(0) =~= v@);
    }
    loop
        invariant
            i <= v@.len(),
            v@ == value@,
            0 < v@.len() <= MAX_TOKEN_BYTES,
            ranges_ok(v@) == ranges_ok(v@.skip(i as int)),
        decreases v@.len() - i,
    {
        let ghost s = v@.skip(i as int);
        let e = skip_while(&v, i, not_comma_char, Ghost(not_comma()));
        proof {
            lemma_lead_bound(s, not_comma());
            assert(s.take(e - i) =~= v@.subrange(i as int, e as int));
        }
        if !range_part(&v, i, e) {
            return false;
        }
        if e >= v.len() {
            return true;
        }
        proof {
            assert(s.skip(e - i + 1) =~= v@.skip(e + 1));
        }
        i = e + 1;
    }
}

pub(crate) fn decimal_string(n: u32) -> (r: String)
    ensures
        r@ == decimal(n as nat),
{
    let mut digits: Vec<char> = Vec::new();
    let mut m = n;
    let ghost mut tail: Seq<char> = Seq::empty();
    while m >= 10
        invariant
            decimal(n as nat) == decimal(m as nat) + tail,
            digits@ == tail.reverse(),
        decreases m,
    {
        let c = char_of_digit(m % 10);
        proof {
            assert(decimal(m as nat) == decimal((m / 10) as nat).push(digit_char((m % 10) as int)));
            assert(decimal((m / 10) as nat) + (seq![c] + tail) =~= decimal(m as nat) + tail);
            assert((seq![c] + tail).reverse() =~= tail.reverse().push(c));
        }
        digits.push(c);
        proof {
            tail = seq![c] + tail;
        }
        m = m / 10;
    }
    let c = char_of_digit(m);
    digits.push(c);
    proof {
        assert(decimal(m as nat) == seq![digit_char(m as int)]);
        assert((seq![c] + tail).reverse() =~= tail.reverse().push(c));
        tail = seq![c] + tail;
        assert(decimal(n as nat) =~= tail);
    }
    let mut out: Vec<char> = Vec::new();
    let mut i = digits.len();
    while i > 0
        invariant
            i <= digits@.len(),
            out@ == digits@.skip(i as int).reverse(),
        decreases i,
    {
        i -= 1;
        out.push(digits[i]);
        proof {
            assert(out@ =~= digits@.skip(i as int).reverse());
        }
    }
    proof {
        assert(digits@.skip(0) =~= digits@);
        assert(tail.reverse().reverse() =~= tail);
    }
    string_of(&out)
}

fn char_of_digit(d: u32) -> (c: char)
    requires
        d < 10,
    ensures
        c == digit_char(d as int),
{
    let b = (d as u8) + 48;
    b as char
}

fn concat3(a: &str, b: &str, c: &str) -> (r: String)
    ensures
        r@ == a@ + b@ + c@,
{
    let mut v = char_vec(a);
    let bv = char_vec(b);
    let cv = char_vec(c);
    let mut i: usize = 0;
    let ghost head = v@;
    while i < bv.len()
        invariant
            i <= bv@.len(),
            v@ == head + bv@.take(i as int),
        decreases bv@.len() - i,
    {
        v.push(bv[i]);
        i += 1;
        proof {
            assert(v@ =~= head + bv@.take(i as int));
        }
    }
    proof {
        assert(bv@.take(i as int) =~= bv@);
    }
    let ghost mid = v@;
    let mut j: usize = 0;
    while j < cv.len()
        invariant
            j <= cv@.len(),
            v@ == mid + cv@.take(j as int),
        decreases cv@.len() - j,
    {
        v.push(cv[j]);
        j += 1;
        proof {
            assert(v@ =~= mid + cv@.take(j as int));
        }
    }
    proof {
        assert(cv@.take(j as int) =~= cv@);
    }
    string_of(&v)
}

fn refuse(what: &str) -> (e: AppError)
    ensures
        e matches AppError::Unsupported(m) && m@ == "refusing to print: "@ + what@,
{
    proof {
        reveal_strlit("");
    }
    AppError::Unsupported(concat3("refusing to print: ", what, ""))
}

/// The exact argument list for `lp`, or a refusal. `prepared` says whether
/// `path` is a print file this application made. Every field of the job is
/// checked against a grammar before it becomes an argument; nothing is
/// escaped or quoted, because nothing is interpolated into a shell.
pub fn lp_arguments(job: &PrintJobDto, path: &str, prepared: bool) -> (r: Result<Vec<String>, AppError>)
    ensures
        match lp_refusal(*job, prepared) {
            Some(why) => r matches Err(AppError::Unsupported(m)) && m@ == "refusing to print: "@ + why,
            None => r matches Ok(args) && strings_view(args@) == lp_args(*job, path@),
        },
{
    proof {
        reveal_strlit("");
    }
    if !is_safe_token(job.printer.as_str()) {
        return Err(refuse("printer name is not a CUPS destination"));
    }
    if job.copies == 0 || job.copies > MAX_COPIES {
        return Err(refuse("copies must be between 1 and 99"));
    }
    if !prepared {
        return Err(refuse("that file is not a prepared print job"));
    }
    let mut args: Vec<String> = Vec::new();
    args.push("-d".to_owned());
    args.push(job.printer.clone());
    args.push("-n".to_owned());
    args.push(decimal_string(job.copies));
    let ghost mut expected: Seq<Seq<char>> = seq!["-d"@, job.printer@, "-n"@, decimal(job.copies as nat)];
    proof {
        assert(strings_view(args@) =~= expected);
    }
    match &job.range {
        Some(range) => {
            if !is_page_range(range.as_str()) {
                return Err(refuse("page range is malformed"));
            }
            let ghost before = args@;
            args.push("-o".to_owned());
            args.push(concat3("page-ranges=", range.as_str(), ""));
            proof {
                expected = expected + seq!["-o"@, "page-ranges="@ + range@];
                assert(strings_view(args@) =~= expected);
            }
        },
        None => {},
    }
    let ghost base = expected;
    let mut k: usize = 0;
    proof {
        assert(job.options@.take(0) =~= Seq::<(String, String)>::empty());
        assert(base + option_args(job.options@.take(0)) =~= base);
    }
    while k < job.options.len()
        invariant
            safe_token(job.printer@),
            1 <= job.copies <= MAX_COPIES,
            prepared,
            job.range matches Some(r) ==> page_range(r@),
            k <= job.options@.len(),
            strings_view(args@) == base + option_args(job.options@.take(k as int)),
            options_safe(job.options@.take(k as int)),
        decreases job.options@.len() - k,
    {
        let key = &job.options[k].0;
        let value = &job.options[k].1;
        proof {
            assert(key@ == job.options@[k as int].0@);
            assert(value@ == job.options@[k as int].1@);
        }
        if !is_safe_token(key.as_str()) || !is_safe_token(value.as_str()) {
            proof {
                assert(!option_safe(job.options@[k as int]));
                assert(!options_safe(job.options@));
                assert(lp_refusal(*job, prepared) == Some("printer option is not a plain CUPS token"@));
            }
            return Err(refuse("printer option is not a plain CUPS token"));
        }
        proof {
            assert(option_safe(job.options@[k as int]));
            assert forall|i: int| 0 <= i < k + 1 implies option_safe(
                #[trigger] job.options@.take(k + 1)[i],
            ) by {
                if i < k {
                    assert(job.options@.take(k + 1)[i] == job.options@.take(k as int)[i]);
                }
            }
        }
        let ghost before = args@;
        args.push("-o".to_owned());
        let joined = concat3(key.as_str(), "=", value.as_str());
        args.push(joined);
        proof {
            assert(strings_view(args@) =~= strings_view(before) + seq!["-o"@, joined@]);
            assert(joined@ == job.options@[k as int].0@ + "="@ + job.options@[k as int].1@);
            assert(job.options@.take(k + 1).drop_last() =~= job.options@.take(k as int));
            assert(job.options@.take(k + 1).last() == job.options@[k as int]);
            assert(strings_view(args@) =~= base + option_args(job.options@.take(k + 1)));
        }
        k += 1;
    }
    let ghost before_path = args@;
    args.push(path.to_owned());
    proof {
        assert(safe_token(job.printer@));
        assert(!(job.copies == 0 || job.copies > MAX_COPIES));
        assert(!(job.range matches Some(r) && !page_range(r@)));
        assert(job.options@.take(k as int) =~= job.options@);
        assert(options_safe(job.options@));
        assert(lp_refusal(*job, prepared) is None);
        assert(strings_view(args@) =~= strings_view(before_path).push(path@));
        assert(job.options@.take(k as int) =~= job.options@);
        assert(strings_view(args@) =~= lp_args(*job, path@));
    }
    Ok(args)
}

/// The argument list for asking `lpoptions` about `printer`, or a refusal
/// when the name is not a CUPS destination, so that nothing else is ever run.
pub fn lpoptions_arguments(printer: &str) -> (r: Result<Vec<String>, AppError>)
    ensures
        safe_token(printer@) ==> (r matches Ok(args) && strings_view(args@) == seq!["-l"@, "-d"@, printer@]),
        !safe_token(printer@) ==> (r matches Err(AppError::Unsupported(m)) && m@
            == "that is not a CUPS destination"@),
{
    if !is_safe_token(printer) {
        return Err(AppError::Unsupported("that is not a CUPS destination".to_owned()));
    }
    let mut args: Vec<String> = Vec::new();
    args.push("-l".to_owned());
    args.push("-d".to_owned());
    args.push(printer.to_owned());
    proof {
        assert(strings_view(args@) =~= seq!["-l"@, "-d"@, printer@]);
    }
    Ok(args)
}

// ---------------------------------------------------------------------------
// What CUPS reports.

/// Where the last `": "` in `line` starts, or -1.
pub open spec fn last_colon_space(line: Seq<char>) -> int
    decreases line.len(),
{
    if line.len() < 2 {
        -1
    } else if line[line.len() - 2] == ':' && line[line.len() - 1] == ' ' {
        line.len() - 2
    } else {
        last_colon_space(line.drop_last())
    }
}

/// The default destination `lpstat -d` names: from the first line holding
/// `": "`, what follows its last `": "`, trimmed, if it is a CUPS name.
pub open spec fn default_of(lines: Seq<Seq<char>>) -> Option<Seq<char>>
    decreases lines.len(),
{
    if lines.len() == 0 {
        None
    } else if last_colon_space(lines[0]) >= 0 {
        let name = trim_by(lines[0].skip(last_colon_space(lines[0]) + 2), spaces());
        if safe_token(name) {
            Some(name)
        } else {
            None
        }
    } else {
        default_of(lines.drop_first())
    }
}

/// The printers `lpstat -p` lists: the first word after `printer ` on each
/// line, when it is a CUPS name, marked when it is the default.
pub open spec fn printers_of(lines: Seq<Seq<char>>, default: Option<Seq<char>>) -> Seq<(Seq<char>, bool)>
    decreases lines.len(),
{
    if lines.len() == 0 {
        Seq::empty()
    } else {
        let line = lines[0];
        let rest = printers_of(lines.drop_first(), default);
        if line.len() >= 8 && line.take(8) == "printer "@ && words_of(line.skip(8)).len() > 0 && safe_token(
            words_of(line.skip(8))[0],
        ) {
            let name = words_of(line.skip(8))[0];
            seq![(name, default == Some(name))] + rest
        } else {
            rest
        }
    }
}

pub open spec fn printer_view(p: PrinterDto) -> (Seq<char>, bool) {
    (p.name@, p.is_default)
}

proof fn lemma_last_colon_space(line: Seq<char>)
    ensures
        last_colon_space(line) >= 0 ==> last_colon_space(line) + 2 <= line.len(),
        last_colon_space(line) >= -1,
    decreases line.len(),
{
    if line.len() >= 2 {
        lemma_last_colon_space(line.drop_last());
    }
}

fn last_colon_space_exec(v: &[char]) -> (r: Option<usize>)
    ensures
        match r {
            Some(i) => i as int == last_colon_space(v@),
            None => last_colon_space(v@) < 0,
        },
{
    let mut n = v.len();
    proof {
        assert(v@.take(n as int) =~= v@);
    }
    while n >= 2
        invariant
            n <= v@.len(),
            last_colon_space(v@) == last_colon_space(v@.take(n as int)),
        decreases n,
    {
        if v[n - 2] == ':' && v[n - 1] == ' ' {
            return Some(n - 2);
        }
        proof {
            assert(v@.take(n as int).drop_last() =~= v@.take(n - 1));
        }
        n -= 1;
    }
    None
}

fn default_printer(ls: &Vec<Vec<char>>) -> (r: Option<Vec<char>>)
    ensures
        match default_of(ls@.map_values(|l: Vec<char>| l@)) {
            Some(n) => r matches Some(v) && v@ == n,
            None => r is None,
        },
{
    let ghost all = ls@.map_values(|l: Vec<char>| l@);
    let mut k: usize = 0;
    proof {
        assert(all.skip(0) =~= all);
    }
    while k < ls.len()
        invariant
            k <= ls@.len(),
            all == ls@.map_values(|l: Vec<char>| l@),
            default_of(all) == default_of(all.skip(k as int)),
        decreases ls@.len() - k,
    {
        proof {
            assert(all.skip(k as int)[0] == ls@[k as int]@);
            assert(all.skip(k as int).drop_first() =~= all.skip(k + 1));
        }
        let line = &ls[k];
        match last_colon_space_exec(line.as_slice()) {
            Some(i) => {
                let ll = line.len();
                proof {
                    lemma_last_colon_space(line@);
                }
                let tail = slice_chars(line.as_slice(), i + 2, line.len());
                let name = trim_chars(&tail, space, Ghost(spaces()));
                proof {
                    assert(tail@ =~= line@.skip(i + 2));
                }
                if is_safe_token_chars(&name) {
                    return Some(name);
                } else {
                    return None;
                }
            },
            None => {},
        }
        k += 1;
    }
    None
}

fn same_chars(a: &[char], b: &[char]) -> (r: bool)
    ensures
        r == (a@ == b@),
{
    if a.len() != b.len() {
        return false;
    }
    let r = starts_with_chars(a, b);
    proof {
        assert(a@.take(b@.len() as int) =~= a@);
    }
    r
}

/// Printers CUPS knows about, with the default marked.
pub fn parse_printers(lpstat_p: &str, lpstat_d: &str) -> (r: Vec<PrinterDto>)
    ensures
        r@.map_values(|p: PrinterDto| printer_view(p)) == printers_of(
            lines_of(lpstat_p@),
            default_of(lines_of(lpstat_d@)),
        ),
{
    let dl = lines(&char_vec(lpstat_d));
    let default = default_printer(&dl);
    let ghost dv = default_of(lines_of(lpstat_d@));
    let pl = lines(&char_vec(lpstat_p));
    let ghost all = pl@.map_values(|l: Vec<char>| l@);
    let prefix = char_vec("printer ");
    proof {
        reveal_strlit("printer ");
    }
    let mut out: Vec<PrinterDto> = Vec::new();
    let mut k: usize = 0;
    proof {
        assert(all.skip(0) =~= all);
        assert(out@.map_values(|p: PrinterDto| printer_view(p)) =~= Seq::<(Seq<char>, bool)>::empty());
    }
    while k < pl.len()
        invariant
            k <= pl@.len(),
            all == pl@.map_values(|l: Vec<char>| l@),
            all == lines_of(lpstat_p@),
            prefix@ == "printer "@,
            prefix@.len() == 8,
            match dv {
                Some(n) => default matches Some(d) && d@ == n,
                None => default is None,
            },
            printers_of(all, dv) == out@.map_values(|p: PrinterDto| printer_view(p)) + printers_of(
                all.skip(k as int),
                dv,
            ),
        decreases pl@.len() - k,
    {
        let line = &pl[k];
        proof {
            assert(all.skip(k as int)[0] == line@);
            assert(all.skip(k as int).drop_first() =~= all.skip(k + 1));
        }
        let ghost before = out@;
        if starts_with_chars(line.as_slice(), &prefix) {
            let ws = words(&slice_chars(line.as_slice(), 8, line.len()));
            proof {
                assert(line@.skip(8) =~= line@.subrange(8, line@.len() as int));
            }
            if ws.len() > 0 && is_safe_token_chars(ws[0].as_slice()) {
                let name = &ws[0];
                proof {
                    assert(ws@.map_values(|w: Vec<char>| w@)[0] == ws@[0]@);
                }
                let is_default = match &default {
                    Some(d) => same_chars(d.as_slice(), name.as_slice()),
                    None => false,
                };
                out.push(PrinterDto { name: string_of(name.as_slice()), is_default });
                proof {
                    assert(out@.map_values(|p: PrinterDto| printer_view(p)) =~= before.map_values(
                        |p: PrinterDto| printer_view(p),
                    ).push((name@, dv == Some(name@))));
                }
            } else {
                proof {
                    if ws@.len() > 0 {
                        assert(ws@.map_values(|w: Vec<char>| w@)[0] == ws@[0]@);
                    }
                }
            }
        }
        k += 1;
    }
    proof {
        assert(all.skip(k as int) =~= Seq::<Seq<char>>::empty());
    }
    out
}

pub open spec fn not_colon() -> spec_fn(char) -> bool {
    |c: char| c != ':'
}

pub open spec fn not_slash() -> spec_fn(char) -> bool {
    |c: char| c != '/'
}

/// The choices among `words` and the one marked with `*`: (choices, default).
pub open spec fn choices_of(words: Seq<Seq<char>>) -> (Seq<Seq<char>>, Seq<char>)
    decreases words.len(),
{
    if words.len() == 0 {
        (Seq::empty(), Seq::empty())
    } else {
        let (cs, d) = choices_of(words.drop_last());
        let raw = words.last();
        let starred = raw.len() > 0 && raw[0] == '*';
        let value = if starred {
            raw.skip(1)
        } else {
            raw
        };
        if !safe_token(value) {
            (cs, d)
        } else {
            (cs.push(value), if starred {
                value
            } else {
                d
            })
        }
    }
}

/// What one `lpoptions -l` line offers: `Key/Label: choice *default choice`.
/// Nothing for a line that is not one, or that offers fewer than two choices.
pub open spec fn option_of(line: Seq<char>) -> Option<(Seq<char>, Seq<char>, Seq<Seq<char>>, Seq<char>)> {
    let c = lead(line, not_colon()) as int;
    if c >= line.len() {
        None
    } else {
        let name = line.take(c);
        let values = line.skip(c + 1);
        let s = lead(name, not_slash()) as int;
        let key = trim_by(
            if s < name.len() {
                name.take(s)
            } else {
                name
            },
            spaces(),
        );
        let label = trim_by(
            if s < name.len() {
                name.skip(s + 1)
            } else {
                name
            },
            spaces(),
        );
        let (choices, d) = choices_of(words_of(values));
        if !safe_token(key) || choices.len() < 2 {
            None
        } else {
            Some((key, label, choices, if d.len() == 0 {
                choices[0]
            } else {
                d
            }))
        }
    }
}

pub open spec fn options_of(lines: Seq<Seq<char>>) -> Seq<(Seq<char>, Seq<char>, Seq<Seq<char>>, Seq<char>)>
    decreases lines.len(),
{
    if lines.len() == 0 {
        Seq::empty()
    } else {
        let rest = options_of(lines.drop_first());
        match option_of(lines[0]) {
            Some(o) => seq![o] + rest,
            None => rest,
        }
    }
}

pub open spec fn option_view(o: PrintOptionDto) -> (Seq<char>, Seq<char>, Seq<Seq<char>>, Seq<char>) {
    (o.key@, o.label@, strings_view(o.choices@), o.default@)
}

fn not_colon_char(c: char) -> (r: bool)
    ensures
        r == (c != ':'),
{
    c != ':'
}

fn not_slash_char(c: char) -> (r: bool)
    ensures
        r == (c != '/'),
{
    c != '/'
}

fn choices_in(ws: &Vec<Vec<char>>) -> (r: (Vec<String>, Vec<char>))
    ensures
        (strings_view(r.0@), r.1@) == choices_of(ws@.map_values(|w: Vec<char>| w@)),
{
    let ghost all = ws@.map_values(|w: Vec<char>| w@);
    let mut choices: Vec<String> = Vec::new();
    let mut default: Vec<char> = Vec::new();
    let mut k: usize = 0;
    proof {
        assert(all.take(0) =~= Seq::<Seq<char>>::empty());
        assert(strings_view(choices@) =~= Seq::<Seq<char>>::empty());
    }
    while k < ws.len()
        invariant
            k <= ws@.len(),
            all == ws@.map_values(|w: Vec<char>| w@),
            (strings_view(choices@), default@) == choices_of(all.take(k as int)),
        decreases ws@.len() - k,
    {
        let raw = &ws[k];
        proof {
            assert(all.take(k + 1).drop_last() =~= all.take(k as int));
            assert(all.take(k + 1).last() == raw@);
        }
        let starred = raw.len() > 0 && raw[0] == '*';
        let value = if starred {
            slice_chars(raw.as_slice(), 1, raw.len())
        } else {
            slice_chars(raw.as_slice(), 0, raw.len())
        };
        proof {
            if starred {
                assert(value@ =~= raw@.skip(1));
            } else {
                assert(value@ =~= raw@);
            }
        }
        if is_safe_token_chars(&value) {
            let ghost before = choices@;
            if starred {
                default = slice_chars(&value, 0, value.len());
                proof {
                    assert(default@ =~= value@);
                }
            }
            choices.push(string_of(&value));
            proof {
                assert(strings_view(choices@) =~= strings_view(before).push(value@));
            }
        }
        k += 1;
    }
    proof {
        assert(all.take(k as int) =~= all);
    }
    (choices, default)
}

fn option_in(line: &[char]) -> (r: Option<PrintOptionDto>)
    ensures
        match option_of(line@) {
            Some(o) => r matches Some(x) && option_view(x) == o,
            None => r is None,
        },
{
    let c = skip_while(line, 0, not_colon_char, Ghost(not_colon()));
    proof {
        assert(line@.skip(0) =~= line@);
        lemma_lead_bound(line@, not_colon());
    }
    if c >= line.len() {
        return None;
    }
    let name = slice_chars(line, 0, c);
    let values = slice_chars(line, c + 1, line.len());
    let s = skip_while(&name, 0, not_slash_char, Ghost(not_slash()));
    proof {
        assert(name@ =~= line@.take(c as int));
        assert(values@ =~= line@.skip(c + 1));
        assert(name@.skip(0) =~= name@);
        lemma_lead_bound(name@, not_slash());
    }
    let (key_raw, label_raw) = if s < name.len() {
        (slice_chars(&name, 0, s), slice_chars(&name, s + 1, name.len()))
    } else {
        (slice_chars(&name, 0, name.len()), slice_chars(&name, 0, name.len()))
    };
    proof {
        assert(name@.subrange(0, name@.len() as int) =~= name@);
        assert(name@.subrange(0, s as int) =~= name@.take(s as int));
        assert(name@.subrange(s + 1, name@.len() as int) =~= name@.skip(s + 1));
    }
    let key = trim_chars(&key_raw, space, Ghost(spaces()));
    if !is_safe_token_chars(&key) {
        return None;
    }
    let ws = words(&values);
    let (choices, default) = choices_in(&ws);
    if choices.len() < 2 {
        return None;
    }
    let label = trim_chars(&label_raw, space, Ghost(spaces()));
    let default = if default.len() == 0 {
        choices[0].clone()
    } else {
        string_of(&default)
    };
    proof {
        assert(strings_view(choices@)[0] == choices@[0]@);
    }
    Some(PrintOptionDto { key: string_of(&key), label: string_of(&label), choices, default })
}

/// What a printer can vary, from `lpoptions -l`. Each line reads
/// `Key/Human Label: choice *default choice`; the asterisk marks what the
/// printer would do if nothing were said.
pub fn parse_lpoptions(text: &str) -> (r: Vec<PrintOptionDto>)
    ensures
        r@.map_values(|o: PrintOptionDto| option_view(o)) == options_of(lines_of(text@)),
{
    let ls = lines(&char_vec(text));
    let ghost all = ls@.map_values(|l: Vec<char>| l@);
    let mut out: Vec<PrintOptionDto> = Vec::new();
    let mut k: usize = 0;
    proof {
        assert(all.skip(0) =~= all);
        assert(out@.map_values(|o: PrintOptionDto| option_view(o)) =~= Seq::<
            (Seq<char>, Seq<char>, Seq<Seq<char>>, Seq<char>),
        >::empty());
    }
    while k < ls.len()
        invariant
            k <= ls@.len(),
            all == ls@.map_values(|l: Vec<char>| l@),
            all == lines_of(text@),
            options_of(all) == out@.map_values(|o: PrintOptionDto| option_view(o)) + options_of(
                all.skip(k as int),
            ),
        decreases ls@.len() - k,
    {
        proof {
            assert(all.skip(k as int)[0] == ls@[k as int]@);
            assert(all.skip(k as int).drop_first() =~= all.skip(k + 1));
        }
        let ghost before = out@;
        match option_in(ls[k].as_slice()) {
            Some(o) => {
                out.push(o);
                proof {
                    assert(out@.map_values(|o: PrintOptionDto| option_view(o)) =~= before.map_values(
                        |o: PrintOptionDto| option_view(o),
                    ).push(option_view(o)));
                }
            },
            None => {},
        }
        k += 1;
    }
    proof {
        assert(all.skip(k as int) =~= Seq::<Seq<char>>::empty());
    }
    out
}

/// The name every print file this application makes starts with.
pub open spec fn print_prefix() -> Seq<char> {
    seq!['s', 'p', 'e', 'e', 'd', 'y', 'f', '-', 'p', 'r', 'i', 'n', 't', '-']
}

/// A file name this application gives its print files: the print prefix,
/// anything, and `.pdf`.
pub open spec fn print_job_name(name: Seq<char>) -> bool {
    crate::citation::starts_with(name, print_prefix()) && crate::citation::ends_with(name, seq!['.', 'p', 'd', 'f'])
}

/// Whether `name` is the name of a print file this application made. Where
/// the file lies is for the caller to check on disk.
pub fn is_print_job_name(name: &str) -> (r: bool)
    ensures
        r == print_job_name(name@),
{
    let v = char_vec(name);
    let mut prefix: Vec<char> = Vec::new();
    prefix.push('s');
    prefix.push('p');
    prefix.push('e');
    prefix.push('e');
    prefix.push('d');
    prefix.push('y');
    prefix.push('f');
    prefix.push('-');
    prefix.push('p');
    prefix.push('r');
    prefix.push('i');
    prefix.push('n');
    prefix.push('t');
    prefix.push('-');
    let mut ext: Vec<char> = Vec::new();
    ext.push('.');
    ext.push('p');
    ext.push('d');
    ext.push('f');
    proof {
        assert(prefix@ =~= print_prefix());
        assert(ext@ =~= seq!['.', 'p', 'd', 'f']);
    }
    starts_with_chars(&v, &prefix) && crate::chars::ends_with_chars(&v, &ext)
}

} // verus!
