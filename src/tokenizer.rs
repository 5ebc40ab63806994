use vstd::prelude::*;

use crate::error::CsvError;
use crate::text::push_char;

verus! {

/// Where the scanner stands with respect to double quotes.
#[derive(Clone, Copy, PartialEq, Eq, Structural)]
pub enum Quoting {
    /// Outside any quoted field.
    Outside,
    /// Inside a quoted field: the delimiter is an ordinary character.
    Inside,
    /// A quoted field has just been closed: the next character is dropped.
    Closed,
}

/// The state of the scanner after a prefix of a line.
pub struct ScanState {
    /// The fields completed so far.
    pub fields: Seq<Seq<char>>,
    /// The field being built.
    pub field: Seq<char>,
    pub quoting: Quoting,
    /// The previous character was a backslash that has not been used yet.
    pub escaped: bool,
}

pub open spec fn scan_start() -> ScanState {
    ScanState { fields: Seq::empty(), field: Seq::empty(), quoting: Quoting::Outside, escaped: false }
}

/// One character of the scanner, with delimiter `d`.
pub open spec fn scan_step(st: ScanState, c: char, d: char) -> ScanState {
    if st.quoting is Closed {
        ScanState { quoting: Quoting::Outside, ..st }
    } else if c == '\\' {
        if st.escaped {
            ScanState { field: st.field.push(c), escaped: false, ..st }
        } else {
            ScanState { escaped: true, ..st }
        }
    } else if c == '"' && !st.escaped {
        if st.quoting is Inside {
            ScanState {
                fields: st.fields.push(st.field),
                field: Seq::empty(),
                quoting: Quoting::Closed,
                escaped: false,
            }
        } else {
            ScanState { quoting: Quoting::Inside, escaped: false, ..st }
        }
    } else if c != '"' && c == d && st.quoting is Outside {
        ScanState { fields: st.fields.push(st.field), field: Seq::empty(), escaped: false, ..st }
    } else {
        ScanState { field: st.field.push(c), escaped: false, ..st }
    }
}

/// The scanner's state after reading all of `s`.
pub open spec fn scan(s: Seq<char>, d: char) -> ScanState
    decreases s.len(),
{
    if s.len() == 0 {
        scan_start()
    } else {
        scan_step(scan(s.drop_last(), d), s.last(), d)
    }
}

/// The fields of a line read by the scanner, or `None` where the line ends
/// inside quotes or after an unused backslash.
pub open spec fn parsed_fields(s: Seq<char>, d: char) -> Option<Seq<Seq<char>>> {
    let st = scan(s, d);
    if st.escaped || st.quoting is Inside {
        None
    } else {
        Some(st.fields.push(st.field))
    }
}

/// The pieces of `s` between occurrences of `d`: always at least one.
pub open spec fn split_fields(s: Seq<char>, d: char) -> Seq<Seq<char>>
    decreases s.len(),
{
    if s.len() == 0 {
        seq![Seq::empty()]
    } else {
        let p = split_fields(s.drop_last(), d);
        if s.last() == d {
            p.push(Seq::empty())
        } else {
            p.update(p.len() - 1, p.last().push(s.last()))
        }
    }
}

pub proof fn lemma_split_fields_nonempty(s: Seq<char>, d: char)
    ensures
        split_fields(s, d).len() >= 1,
    decreases s.len(),
{
    if s.len() > 0 {
        lemma_split_fields_nonempty(s.drop_last(), d);
    }
}

/// On a line without double quotes and without backslashes, the scanner ends
/// outside quotes, with the pieces of the plain split.
proof fn lemma_scan_plain(s: Seq<char>, d: char)
    requires
        !s.contains('"'),
        !s.contains('\\'),
    ensures
        scan(s, d) == (ScanState {
            fields: split_fields(s, d).drop_last(),
            field: split_fields(s, d).last(),
            quoting: Quoting::Outside,
            escaped: false,
        }),
    decreases s.len(),
{
    lemma_split_fields_nonempty(s, d);
    if s.len() == 0 {
        assert(split_fields(s, d).drop_last() =~= Seq::<Seq<char>>::empty());
    } else {
        let p = s.drop_last();
        assert(!p.contains('"') && !p.contains('\\')) by {
            if p.contains('"') {
                let i = choose|i: int| 0 <= i < p.len() && p[i] == '"';
                assert(s[i] == '"');
            }
            if p.contains('\\') {
                let i = choose|i: int| 0 <= i < p.len() && p[i] == '\\';
                assert(s[i] == '\\');
            }
        }
        assert(s[s.len() - 1] != '"' && s[s.len() - 1] != '\\');
        lemma_scan_plain(p, d);
        lemma_split_fields_nonempty(p, d);
        let sp = split_fields(p, d);
        if s.last() == d {
            assert(sp.push(Seq::<char>::empty()).drop_last() =~= sp);
            assert(sp.drop_last().push(sp.last()) =~= sp);
        } else {
            assert(sp.update(sp.len() - 1, sp.last().push(s.last())).drop_last() =~= sp.drop_last());
        }
    }
}

/// A line without double quotes and without backslashes reads the same
/// through the scanner as through the plain split.
pub proof fn lemma_parse_agrees_with_split(s: Seq<char>, d: char)
    requires
        !s.contains('"'),
        !s.contains('\\'),
    ensures
        parsed_fields(s, d) == Some(split_fields(s, d)),
{
    lemma_scan_plain(s, d);
    lemma_split_fields_nonempty(s, d);
    let sp = split_fields(s, d);
    assert(sp.drop_last().push(sp.last()) =~= sp);
}

/// Reads a line character by character into fields. A field may be quoted,
/// and then holds the delimiter as an ordinary character; the character that
/// follows a closing quote is dropped. A backslash makes the next quote
/// literal, and two backslashes stand for one. `number_of_fields` only
/// reserves room for the result.
pub fn parse_line(line: &String, delimiter: &char, number_of_fields: Option<u32>) -> (r: Result<
    Vec<String>,
    CsvError,
>)
    ensures
        r is Ok <==> parsed_fields(line@, *delimiter) is Some,
        r is Ok ==> r->Ok_0.deep_view() == parsed_fields(line@, *delimiter)->Some_0,
        r is Err ==> r->Err_0 == CsvError::Unterminated,
{
    let d = *delimiter;
    let mut fields: Vec<String> = match number_of_fields {
        Some(n) => Vec::with_capacity(n as usize),
        None => Vec::new(),
    };
    let mut field = String::new();
    let mut quoting = Quoting::Outside;
    let mut escaped = false;
    proof {
        assert(fields.deep_view() =~= Seq::<Seq<char>>::empty());
        assert(line@.take(0) =~= Seq::<char>::empty());
    }
    for c in it: line.as_str().chars()
        invariant
            it.seq() == line@,
            0 <= it.index() <= line@.len(),
            scan(line@.take(it.index() as int), d) == (ScanState {
                fields: fields.deep_view(),
                field: field@,
                quoting,
                escaped,
            }),
    {
        proof {
            assert(line@.take(it.index() + 1).drop_last() == line@.take(it.index() as int));
        }
        let ghost before = fields.deep_view();
        if quoting == Quoting::Closed {
            quoting = Quoting::Outside;
        } else if c == '\\' {
            if escaped {
                push_char(&mut field, c);
            }
            escaped = !escaped;
        } else if c == '"' && !escaped {
            if quoting == Quoting::Inside {
                fields.push(field);
                field = String::new();
                quoting = Quoting::Closed;
                proof {
                    assert(fields.deep_view() =~= before.push(scan(line@.take(it.index() as int), d).field));
                }
            } else {
                quoting = Quoting::Inside;
            }
        } else if c != '"' && c == d && quoting == Quoting::Outside {
            fields.push(field);
            field = String::new();
            escaped = false;
            proof {
                assert(fields.deep_view() =~= before.push(scan(line@.take(it.index() as int), d).field));
            }
        } else {
            push_char(&mut field, c);
            escaped = false;
        }
    }
    proof {
        assert(line@.take(line@.len() as int) == line@);
    }
    if escaped || quoting == Quoting::Inside {
        return Err(CsvError::Unterminated);
    }
    let ghost before = fields.deep_view();
    fields.push(field);
    proof {
        assert(fields.deep_view() =~= before.push(scan(line@, d).field));
    }
    Ok(fields)
}

/// Splits a line into fields at every delimiter, paying no heed to quotes.
pub fn split_line(line: &String, delimiter: &char) -> (r: Vec<String>)
    ensures
        r.deep_view() == split_fields(line@, *delimiter),
{
    let d = *delimiter;
    let mut fields: Vec<String> = Vec::new();
    let mut field = String::new();
    for c in it: line.as_str().chars()
        invariant
            it.seq() == line@,
            0 <= it.index() <= line@.len(),
            fields.deep_view().push(field@) == split_fields(line@.take(it.index() as int), d),
    {
        let ghost prefix = line@.take(it.index() as int);
        let ghost next = line@.take(it.index() + 1);
        proof {
            assert(next.drop_last() == prefix);
            lemma_split_fields_nonempty(prefix, d);
        }
        if c == d {
            let ghost before = fields.deep_view();
            fields.push(field);
            field = String::new();
            proof {
                assert(fields.deep_view() == before.push(split_fields(prefix, d).last()));
            }
        } else {
            push_char(&mut field, c);
        }
        proof {
            assert(fields.deep_view().push(field@) =~= split_fields(next, d));
        }
    }
    proof {
        assert(line@.take(line@.len() as int) == line@);
    }
    fields.push(field);
    fields
}

} // verus!
