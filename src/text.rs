//! The line format that the configuration and registry documents share.
//!
//! A document is a sequence of records, one per line. A line is a tag
//! character, a space and a payload: a text with `\` written `\\` and a
//! line break written `\n`, or a decimal number. Every line ends with a
//! line break.
use vstd::prelude::*;

verus! {

broadcast use vstd::string::group_string_axioms;

/// Relies on `String::push`: appends one character.
#[verifier::external_body]
pub(crate) fn push_char(s: &mut String, c: char)
    ensures
        final(s)@ == old(s)@.push(c),
{
    s.push(c)
}

/// The characters of `s`, in order.
pub fn chars_of(s: &str) -> (r: Vec<char>)
    ensures
        r@ == s@,
{
    let mut r: Vec<char> = Vec::new();
    for c in it: s.chars()
        invariant
            r@ == it.seq().take(it.index() as int),
    {
        r.push(c);
    }
    r
}

/// One line of a document.
#[derive(Clone, Debug)]
pub enum Record {
    Device(String),
    Job(String),
    Destination(String),
    Source(String),
    LastRun(u64),
    Backup(String),
    Location(String),
}

/// A `Record` with its text as a character sequence.
pub enum RecordView {
    Device(Seq<char>),
    Job(Seq<char>),
    Destination(Seq<char>),
    Source(Seq<char>),
    LastRun(u64),
    Backup(Seq<char>),
    Location(Seq<char>),
}

impl View for Record {
    type V = RecordView;

    open spec fn view(&self) -> RecordView {
        match self {
            Record::Device(s) => RecordView::Device(s@),
            Record::Job(s) => RecordView::Job(s@),
            Record::Destination(s) => RecordView::Destination(s@),
            Record::Source(s) => RecordView::Source(s@),
            Record::LastRun(t) => RecordView::LastRun(*t),
            Record::Backup(s) => RecordView::Backup(s@),
            Record::Location(s) => RecordView::Location(s@),
        }
    }
}

/// A list of records, as values.
pub open spec fn records_view(rs: Seq<Record>) -> Seq<RecordView> {
    rs.map_values(|r: Record| r@)
}

/// How one character of a text is written.
pub open spec fn escape_char(c: char) -> Seq<char> {
    if c == '\\' {
        seq!['\\', '\\']
    } else if c == '\n' {
        seq!['\\', 'n']
    } else {
        seq![c]
    }
}

/// How a text is written.
pub open spec fn escape(s: Seq<char>) -> Seq<char>
    decreases s.len(),
{
    if s.len() == 0 {
        Seq::empty()
    } else {
        escape(s.drop_last()) + escape_char(s.last())
    }
}

/// The text that a written payload stands for, if it is well formed.
pub open spec fn unescape(t: Seq<char>) -> Option<Seq<char>>
    decreases t.len(),
{
    if t.len() == 0 {
        Some(Seq::empty())
    } else if t[0] == '\\' {
        if t.len() >= 2 && (t[1] == '\\' || t[1] == 'n') {
            match unescape(t.skip(2)) {
                Some(r) => Some(seq![if t[1] == 'n' { '\n' } else { '\\' }] + r),
                None => None,
            }
        } else {
            None
        }
    } else {
        match unescape(t.drop_first()) {
            Some(r) => Some(seq![t[0]] + r),
            None => None,
        }
    }
}

/// The character of a decimal digit.
pub open spec fn digit(d: nat) -> char {
    (d + 48) as u8 as char
}

/// Whether the character is a decimal digit.
pub open spec fn is_digit(c: char) -> bool {
    48 <= c as u32 <= 57
}

/// `n` in decimal, without leading zeros.
pub open spec fn decimal(n: nat) -> Seq<char>
    decreases n,
{
    if n < 10 {
        seq![digit(n)]
    } else {
        decimal(n / 10).push(digit(n % 10))
    }
}

/// The number that a string of decimal digits stands for.
pub open spec fn digits_value(t: Seq<char>) -> nat
    decreases t.len(),
{
    if t.len() == 0 {
        0
    } else {
        digits_value(t.drop_last()) * 10 + (t.last() as u32 - 48) as nat
    }
}

/// The 64-bit number that a payload stands for: at least one digit,
/// nothing but digits, and no more than fits.
pub open spec fn parse_u64(t: Seq<char>) -> Option<u64> {
    if t.len() > 0 && (forall|i: int| 0 <= i < t.len() ==> is_digit(#[trigger] t[i]))
        && digits_value(t) <= u64::MAX {
        Some(digits_value(t) as u64)
    } else {
        None
    }
}

/// The line of a record, without its line break.
pub open spec fn record_line(r: RecordView) -> Seq<char> {
    match r {
        RecordView::Device(s) => seq!['D', ' '] + escape(s),
        RecordView::Job(s) => seq!['J', ' '] + escape(s),
        RecordView::Destination(s) => seq!['T', ' '] + escape(s),
        RecordView::Source(s) => seq!['S', ' '] + escape(s),
        RecordView::LastRun(t) => seq!['L', ' '] + decimal(t as nat),
        RecordView::Backup(s) => seq!['B', ' '] + escape(s),
        RecordView::Location(s) => seq!['P', ' '] + escape(s),
    }
}

/// The record that a line stands for, if it is well formed.
pub open spec fn parse_line(l: Seq<char>) -> Option<RecordView> {
    if l.len() < 2 || l[1] != ' ' {
        None
    } else {
        let p = l.skip(2);
        if l[0] == 'L' {
            match parse_u64(p) {
                Some(t) => Some(RecordView::LastRun(t)),
                None => None,
            }
        } else {
            match unescape(p) {
                None => None,
                Some(s) => if l[0] == 'D' {
                    Some(RecordView::Device(s))
                } else if l[0] == 'J' {
                    Some(RecordView::Job(s))
                } else if l[0] == 'T' {
                    Some(RecordView::Destination(s))
                } else if l[0] == 'S' {
                    Some(RecordView::Source(s))
                } else if l[0] == 'B' {
                    Some(RecordView::Backup(s))
                } else if l[0] == 'P' {
                    Some(RecordView::Location(s))
                } else {
                    None
                },
            }
        }
    }
}

/// The text of a sequence of records.
pub open spec fn records_text(rs: Seq<RecordView>) -> Seq<char>
    decreases rs.len(),
{
    if rs.len() == 0 {
        Seq::empty()
    } else {
        records_text(rs.drop_last()) + record_line(rs.last()).push('\n')
    }
}

/// The position of the first line break.
pub open spec fn first_newline(t: Seq<char>) -> Option<int>
    decreases t.len(),
{
    if t.len() == 0 {
        None
    } else if t[0] == '\n' {
        Some(0)
    } else {
        match first_newline(t.drop_first()) {
            Some(k) => Some(k + 1),
            None => None,
        }
    }
}

/// The records of a text, if every line of it is well formed. The last
/// line may lack its line break.
pub open spec fn parse_records(t: Seq<char>) -> Option<Seq<RecordView>>
    decreases t.len(),
{
    if t.len() == 0 {
        Some(Seq::empty())
    } else {
        let (line, rest) = match first_newline(t) {
            Some(k) => if 0 <= k < t.len() {
                (t.take(k), t.skip(k + 1))
            } else {
                (t, Seq::empty())
            },
            None => (t, Seq::empty()),
        };
        match parse_line(line) {
            None => None,
            Some(r) => match parse_records(rest) {
                None => None,
                Some(rs) => Some(seq![r] + rs),
            },
        }
    }
}

proof fn lemma_first_newline(t: Seq<char>, k: int)
    requires
        0 <= k <= t.len(),
        forall|m: int| 0 <= m < k ==> t[m] != '\n',
    ensures
        k < t.len() && t[k] == '\n' ==> first_newline(t) == Some(k),
        k == t.len() ==> first_newline(t) is None,
    decreases k,
{
    if k > 0 {
        lemma_first_newline(t.drop_first(), k - 1);
    }
}

proof fn lemma_escape_front(s: Seq<char>)
    requires
        s.len() > 0,
    ensures
        escape(s) == escape_char(s[0]) + escape(s.drop_first()),
    decreases s.len(),
{
    if s.len() == 1 {
        assert(s.drop_last() =~= Seq::<char>::empty());
        assert(s.drop_first() =~= Seq::<char>::empty());
        assert(escape(s.drop_first()) =~= Seq::<char>::empty());
        assert(escape(s.drop_last()) =~= Seq::<char>::empty());
        assert(escape(s) =~= escape_char(s[0]));
    } else {
        lemma_escape_front(s.drop_last());
        assert(s.drop_last().drop_first() =~= s.drop_first().drop_last());
        assert(s.drop_first().last() == s.last());
        assert(escape(s) =~= escape_char(s[0]) + escape(s.drop_first()));
    }
}

proof fn lemma_escape_round_trip(s: Seq<char>)
    ensures
        unescape(escape(s)) == Some(s),
        forall|i: int| 0 <= i < escape(s).len() ==> #[trigger] escape(s)[i] != '\n',
    decreases s.len(),
{
    if s.len() == 0 {
        assert(escape(s) =~= Seq::<char>::empty());
        assert(s =~= Seq::<char>::empty());
    } else {
        lemma_escape_front(s);
        lemma_escape_round_trip(s.drop_first());
        let e = escape(s);
        let rest = escape(s.drop_first());
        if s[0] == '\\' || s[0] == '\n' {
            assert(e.skip(2) =~= rest);
        } else {
            assert(e.drop_first() =~= rest);
        }
        assert(seq![s[0]] + s.drop_first() =~= s);
        assert forall|i: int| 0 <= i < e.len() implies #[trigger] e[i] != '\n' by {
            if i >= escape_char(s[0]).len() {
                assert(e[i] == rest[i - escape_char(s[0]).len()]);
            }
        }
    }
}

proof fn lemma_decimal(n: nat)
    ensures
        decimal(n).len() > 0,
        forall|i: int| 0 <= i < decimal(n).len() ==> is_digit(#[trigger] decimal(n)[i]),
        digits_value(decimal(n)) == n,
    decreases n,
{
    if n < 10 {
        assert(decimal(n).drop_last() =~= Seq::<char>::empty());
        assert(digit(n) as u32 == n + 48);
        assert(digits_value(decimal(n)) == digits_value(Seq::<char>::empty()) * 10 + n);
    } else {
        lemma_decimal(n / 10);
        let d = decimal(n);
        assert(d.drop_last() =~= decimal(n / 10));
        assert(digit(n % 10) as u32 == n % 10 + 48);
        assert(d.last() == digit(n % 10));
        assert(forall|i: int| 0 <= i < d.len() - 1 ==> d[i] == decimal(n / 10)[i]);
        assert(digits_value(d) == digits_value(decimal(n / 10)) * 10 + (n % 10));
        assert(n == (n / 10) * 10 + n % 10) by (nonlinear_arith);
    }
}

proof fn lemma_record_line(r: RecordView)
    ensures
        parse_line(record_line(r)) == Some(r),
        forall|i: int| 0 <= i < record_line(r).len() ==> #[trigger] record_line(r)[i] != '\n',
{
    let l = record_line(r);
    match r {
        RecordView::LastRun(t) => {
            lemma_decimal(t as nat);
            assert(l.skip(2) =~= decimal(t as nat));
            assert forall|i: int| 0 <= i < l.len() implies #[trigger] l[i] != '\n' by {
                if i >= 2 {
                    assert(l[i] == decimal(t as nat)[i - 2]);
                    assert(is_digit(decimal(t as nat)[i - 2]));
                }
            }
        },
        RecordView::Device(s) | RecordView::Job(s) | RecordView::Destination(s)
        | RecordView::Source(s) | RecordView::Backup(s) | RecordView::Location(s) => {
            lemma_escape_round_trip(s);
            assert(l.skip(2) =~= escape(s));
            assert forall|i: int| 0 <= i < l.len() implies #[trigger] l[i] != '\n' by {
                if i >= 2 {
                    assert(l[i] == escape(s)[i - 2]);
                }
            }
        },
    }
}

proof fn lemma_records_text_front(rs: Seq<RecordView>)
    requires
        rs.len() > 0,
    ensures
        records_text(rs) == record_line(rs[0]).push('\n') + records_text(rs.drop_first()),
    decreases rs.len(),
{
    if rs.len() == 1 {
        assert(rs.drop_last() =~= Seq::<RecordView>::empty());
        assert(rs.drop_first() =~= Seq::<RecordView>::empty());
        assert(records_text(rs.drop_first()) =~= Seq::<char>::empty());
        assert(records_text(rs.drop_last()) =~= Seq::<char>::empty());
        assert(records_text(rs) =~= record_line(rs[0]).push('\n'));
    } else {
        lemma_records_text_front(rs.drop_last());
        assert(rs.drop_last().drop_first() =~= rs.drop_first().drop_last());
        assert(rs.drop_first().last() == rs.last());
        assert(records_text(rs) =~= record_line(rs[0]).push('\n') + records_text(rs.drop_first()));
    }
}

/// Reading the text of a sequence of records gives those records back.
pub proof fn lemma_records_round_trip(rs: Seq<RecordView>)
    ensures
        parse_records(records_text(rs)) == Some(rs),
    decreases rs.len(),
{
    if rs.len() == 0 {
        assert(records_text(rs) =~= Seq::<char>::empty());
        assert(rs =~= Seq::<RecordView>::empty());
    } else {
        let t = records_text(rs);
        let l = record_line(rs[0]);
        lemma_records_text_front(rs);
        lemma_record_line(rs[0]);
        lemma_first_newline(t, l.len() as int);
        assert(t.take(l.len() as int) =~= l);
        assert(t.skip(l.len() as int + 1) =~= records_text(rs.drop_first()));
        lemma_records_round_trip(rs.drop_first());
        assert(seq![rs[0]] + rs.drop_first() =~= rs);
    }
}

/// The value never shrinks as digits are appended.
proof fn lemma_digits_monotone(t: Seq<char>, i: int)
    requires
        0 <= i <= t.len(),
    ensures
        digits_value(t.take(i)) <= digits_value(t),
    decreases t.len() - i,
{
    if i < t.len() {
        lemma_digits_monotone(t, i + 1);
        assert(t.take(i + 1).drop_last() =~= t.take(i));
    } else {
        assert(t.take(i) =~= t);
    }
}

/// Writes a text with its escapes.
fn push_escaped(out: &mut String, s: &String)
    ensures
        final(out)@ == old(out)@ + escape(s@),
{
    let cs = chars_of(s.as_str());
    let ghost start = out@;
    let n = cs.len();
    assert(cs@.take(0) =~= Seq::<char>::empty());
    assert(start + escape(cs@.take(0)) =~= start);
    for i in 0..n
        invariant
            n == cs@.len(),
            out@ == start + escape(cs@.take(i as int)),
    {
        let c = cs[i];
        assert(cs@.take(i + 1).drop_last() =~= cs@.take(i as int));
        assert(cs@.take(i + 1).last() == c);
        if c == '\\' {
            push_char(out, '\\');
            push_char(out, '\\');
        } else if c == '\n' {
            push_char(out, '\\');
            push_char(out, 'n');
        } else {
            push_char(out, c);
        }
        assert(out@ =~= start + escape(cs@.take(i + 1)));
    }
    assert(cs@.take(n as int) =~= s@);
}

/// Writes `n` in decimal.
fn push_decimal(out: &mut String, n: u64)
    ensures
        final(out)@ == old(out)@ + decimal(n as nat),
    decreases n,
{
    if n >= 10 {
        push_decimal(out, n / 10);
    }
    let d = (n % 10) as u8;
    push_char(out, (d + 48) as char);
    assert(final(out)@ =~= old(out)@ + decimal(n as nat));
}

/// The text of a sequence of records, one line each.
pub fn write_records(rs: &Vec<Record>) -> (r: String)
    ensures
        r@ == records_text(records_view(rs@)),
{
    let mut out = String::new();
    let ghost rv = records_view(rs@);
    let n = rs.len();
    assert(rv.take(0) =~= Seq::<RecordView>::empty());
    for i in 0..n
        invariant
            n == rs@.len(),
            rv == records_view(rs@),
            out@ == records_text(rv.take(i as int)),
    {
        assert(rv.take(i + 1).drop_last() =~= rv.take(i as int));
        assert(rv.take(i + 1).last() == rs@[i as int]@);
        let ghost before = out@;
        match &rs[i] {
            Record::Device(s) => {
                push_char(&mut out, 'D');
                push_char(&mut out, ' ');
                push_escaped(&mut out, s);
            },
            Record::Job(s) => {
                push_char(&mut out, 'J');
                push_char(&mut out, ' ');
                push_escaped(&mut out, s);
            },
            Record::Destination(s) => {
                push_char(&mut out, 'T');
                push_char(&mut out, ' ');
                push_escaped(&mut out, s);
            },
            Record::Source(s) => {
                push_char(&mut out, 'S');
                push_char(&mut out, ' ');
                push_escaped(&mut out, s);
            },
            Record::LastRun(t) => {
                push_char(&mut out, 'L');
                push_char(&mut out, ' ');
                push_decimal(&mut out, *t);
            },
            Record::Backup(s) => {
                push_char(&mut out, 'B');
                push_char(&mut out, ' ');
                push_escaped(&mut out, s);
            },
            Record::Location(s) => {
                push_char(&mut out, 'P');
                push_char(&mut out, ' ');
                push_escaped(&mut out, s);
            },
        }
        push_char(&mut out, '\n');
        assert(out@ =~= before + record_line(rs@[i as int]@).push('\n'));
    }
    assert(rv.take(n as int) =~= rv);
    out
}

/// The text that `cs[a..b]` stands for, if it is well formed.
fn read_escaped(cs: &Vec<char>, a: usize, b: usize) -> (r: Option<String>)
    requires
        a <= b <= cs@.len(),
    ensures
        r is None <==> unescape(cs@.subrange(a as int, b as int)) is None,
        r matches Some(s) ==> unescape(cs@.subrange(a as int, b as int)) == Some(s@),
{
    let mut out = String::new();
    let mut i = a;
    while i < b
        invariant
            a <= i <= b <= cs@.len(),
            unescape(cs@.subrange(a as int, b as int)) == match unescape(
                cs@.subrange(i as int, b as int),
            ) {
                Some(r) => Some(out@ + r),
                None => None,
            },
        decreases b - i,
    {
        let ghost u = cs@.subrange(i as int, b as int);
        let ghost before = out@;
        if cs[i] == '\\' {
            if i + 1 < b && (cs[i + 1] == '\\' || cs[i + 1] == 'n') {
                let c = if cs[i + 1] == 'n' {
                    '\n'
                } else {
                    '\\'
                };
                push_char(&mut out, c);
                assert(u.skip(2) =~= cs@.subrange(i + 2, b as int));
                i += 2;
                assert(forall|r: Seq<char>| before + (seq![c] + r) =~= out@ + r);
            } else {
                return None;
            }
        } else {
            push_char(&mut out, cs[i]);
            assert(u.drop_first() =~= cs@.subrange(i + 1, b as int));
            assert(forall|r: Seq<char>| before + (seq![cs@[i as int]] + r) =~= out@ + r);
            i += 1;
        }
    }
    assert(out@ + Seq::<char>::empty() =~= out@);
    Some(out)
}

/// The number that `cs[a..b]` stands for, if it is well formed.
fn read_u64(cs: &Vec<char>, a: usize, b: usize) -> (r: Option<u64>)
    requires
        a <= b <= cs@.len(),
    ensures
        r == parse_u64(cs@.subrange(a as int, b as int)),
{
    let ghost t = cs@.subrange(a as int, b as int);
    if a == b {
        return None;
    }
    let mut v: u64 = 0;
    let mut i = a;
    assert(t.take(0) =~= Seq::<char>::empty());
    while i < b
        invariant
            a <= i <= b <= cs@.len(),
            t == cs@.subrange(a as int, b as int),
            v == digits_value(t.take(i - a)),
            forall|m: int| 0 <= m < i - a ==> is_digit(#[trigger] t[m]),
        decreases b - i,
    {
        let c = cs[i];
        assert(t[i - a] == c);
        let code = c as u32;
        if code < 48 || code > 57 {
            return None;
        }
        let d = (code - 48) as u64;
        assert(t.take(i - a + 1).drop_last() =~= t.take(i - a));
        if v > (u64::MAX - d) / 10 {
            proof {
                assert(v * 10 + d > u64::MAX) by (nonlinear_arith)
                    requires
                        v > (u64::MAX - d) / 10,
                        d <= 9,
                ;
                lemma_digits_monotone(t, i - a + 1);
            }
            return None;
        }
        assert(v * 10 + d <= u64::MAX) by (nonlinear_arith)
            requires
                v <= (u64::MAX - d) / 10,
                d <= 9,
        ;
        v = v * 10 + d;
        i += 1;
    }
    assert(t.take(b - a) =~= t);
    Some(v)
}

/// The record that the line `cs[a..b]` stands for, if it is well formed.
fn read_line(cs: &Vec<char>, a: usize, b: usize) -> (r: Option<Record>)
    requires
        a <= b <= cs@.len(),
    ensures
        r is None <==> parse_line(cs@.subrange(a as int, b as int)) is None,
        r matches Some(x) ==> parse_line(cs@.subrange(a as int, b as int)) == Some(x@),
{
    let ghost l = cs@.subrange(a as int, b as int);
    if b - a < 2 || cs[a + 1] != ' ' {
        return None;
    }
    assert(l.skip(2) =~= cs@.subrange(a + 2, b as int));
    let tag = cs[a];
    if tag == 'L' {
        return match read_u64(cs, a + 2, b) {
            Some(t) => Some(Record::LastRun(t)),
            None => None,
        };
    }
    let s = match read_escaped(cs, a + 2, b) {
        Some(s) => s,
        None => {
            return None;
        },
    };
    if tag == 'D' {
        Some(Record::Device(s))
    } else if tag == 'J' {
        Some(Record::Job(s))
    } else if tag == 'T' {
        Some(Record::Destination(s))
    } else if tag == 'S' {
        Some(Record::Source(s))
    } else if tag == 'B' {
        Some(Record::Backup(s))
    } else if tag == 'P' {
        Some(Record::Location(s))
    } else {
        None
    }
}

/// The records of a text, if every line of it is well formed.
pub fn read_records(t: &str) -> (r: Option<Vec<Record>>)
    ensures
        r is None <==> parse_records(t@) is None,
        r matches Some(v) ==> parse_records(t@) == Some(records_view(v@)),
{
    let cs = chars_of(t);
    let n = cs.len();
    let mut acc: Vec<Record> = Vec::new();
    let mut pos: usize = 0;
    assert(cs@.skip(0) =~= t@);
    assert(records_view(acc@) =~= Seq::<RecordView>::empty());
    while pos < n
        invariant
            pos <= n == cs@.len(),
            cs@ == t@,
            parse_records(t@) == match parse_records(cs@.skip(pos as int)) {
                Some(rs) => Some(records_view(acc@) + rs),
                None => None,
            },
        decreases n - pos,
    {
        let ghost u = cs@.skip(pos as int);
        let mut k = pos;
        while k < n && cs[k] != '\n'
            invariant
                pos <= k <= n == cs@.len(),
                forall|m: int| pos <= m < k ==> cs@[m] != '\n',
            decreases n - k,
        {
            k += 1;
        }
        proof {
            assert forall|m: int| 0 <= m < k - pos implies u[m] != '\n' by {
                assert(u[m] == cs@[pos + m]);
            }
            lemma_first_newline(u, k - pos);
            assert(u.take(k - pos) =~= cs@.subrange(pos as int, k as int));
        }
        let rec = match read_line(&cs, pos, k) {
            Some(x) => x,
            None => {
                return None;
            },
        };
        let ghost before = records_view(acc@);
        acc.push(rec);
        assert(records_view(acc@) =~= before.push(rec@));
        if k < n {
            assert(u.skip(k - pos + 1) =~= cs@.skip(k + 1));
            pos = k + 1;
        } else {
            assert(cs@.skip(n as int) =~= Seq::<char>::empty());
            pos = n;
        }
        assert(forall|rs: Seq<RecordView>| before + (seq![rec@] + rs) =~= records_view(acc@) + rs);
    }
    assert(cs@.skip(n as int) =~= Seq::<char>::empty());
    assert(records_view(acc@) + Seq::<RecordView>::empty() =~= records_view(acc@));
    Some(acc)
}

} // verus!
