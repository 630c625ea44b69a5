//! Tab/row-delimited clipboard framing.
//!
//! Cells are joined by tabs, rows terminated by newlines, so a spreadsheet's
//! native clipboard format round-trips column for column. A literal value
//! containing a delimiter (or a backslash) is escaped losslessly: `\\`,
//! `\t`, `\n` and `\r` stand for backslash, tab, newline and carriage
//! return. Parsing is the exact inverse of composing; the round trip is
//! proved for every table whose rows have at least one field.

use vstd::prelude::*;

verus! {

use vstd::std_specs::iter::IteratorSpec;

/// Relies on `String::push`: appends exactly one character.
pub assume_specification[ String::push ](s: &mut String, ch: char)
    ensures
        final(s)@ == old(s)@.push(ch),
;

/// The escape sequence for one character.
pub open spec fn escape_char(c: char) -> Seq<char> {
    if c == '\\' {
        seq!['\\', '\\']
    } else if c == '\t' {
        seq!['\\', 't']
    } else if c == '\n' {
        seq!['\\', 'n']
    } else if c == '\r' {
        seq!['\\', 'r']
    } else {
        seq![c]
    }
}

/// A field with every delimiter escaped.
pub open spec fn escape_field(s: Seq<char>) -> Seq<char>
    decreases s.len(),
{
    if s.len() == 0 {
        Seq::empty()
    } else {
        escape_char(s.first()) + escape_field(s.drop_first())
    }
}

/// One row: escaped fields joined by tabs.
pub open spec fn compose_row(fields: Seq<Seq<char>>) -> Seq<char>
    decreases fields.len(),
{
    if fields.len() == 0 {
        Seq::empty()
    } else if fields.len() == 1 {
        escape_field(fields.first())
    } else {
        escape_field(fields.first()) + seq!['\t'] + compose_row(fields.drop_first())
    }
}

/// A whole table: rows each terminated by a newline.
pub open spec fn compose_spec(rows: Seq<Seq<Seq<char>>>) -> Seq<char>
    decreases rows.len(),
{
    if rows.len() == 0 {
        Seq::empty()
    } else {
        compose_row(rows.first()) + seq!['\n'] + compose_spec(rows.drop_first())
    }
}

/// The character an escape code stands for.
pub open spec fn unescape_code(c: char) -> char {
    if c == 't' {
        '\t'
    } else if c == 'n' {
        '\n'
    } else if c == 'r' {
        '\r'
    } else {
        c
    }
}

/// The parser's state: completed rows, the row and field being read, and
/// whether a backslash is pending.
#[verifier::ext_equal]
pub ghost struct ParseSt {
    pub done: Seq<Seq<Seq<char>>>,
    pub row: Seq<Seq<char>>,
    pub field: Seq<char>,
    pub esc: bool,
}

/// One parser step.
pub open spec fn parse_step(st: ParseSt, c: char) -> ParseSt {
    if st.esc {
        ParseSt { field: st.field.push(unescape_code(c)), esc: false, ..st }
    } else if c == '\\' {
        ParseSt { esc: true, ..st }
    } else if c == '\t' {
        ParseSt { row: st.row.push(st.field), field: Seq::empty(), ..st }
    } else if c == '\n' {
        ParseSt {
            done: st.done.push(st.row.push(st.field)),
            row: Seq::empty(),
            field: Seq::empty(),
            ..st
        }
    } else {
        ParseSt { field: st.field.push(c), ..st }
    }
}

/// Run the parser over a character sequence.
pub open spec fn parse_run(st: ParseSt, text: Seq<char>) -> ParseSt
    decreases text.len(),
{
    if text.len() == 0 {
        st
    } else {
        parse_run(parse_step(st, text.first()), text.drop_first())
    }
}

/// The parser's starting state.
pub open spec fn parse_init() -> ParseSt {
    ParseSt { done: Seq::empty(), row: Seq::empty(), field: Seq::empty(), esc: false }
}

/// Close a trailing unterminated row, if any.
pub open spec fn parse_finish(st: ParseSt) -> Seq<Seq<Seq<char>>> {
    if st.row.len() == 0 && st.field.len() == 0 && !st.esc {
        st.done
    } else {
        st.done.push(st.row.push(st.field))
    }
}

/// The rows a clipboard text parses to.
pub open spec fn parse_spec(text: Seq<char>) -> Seq<Seq<Seq<char>>> {
    parse_finish(parse_run(parse_init(), text))
}

/// Running over a single character is one step.
pub proof fn lemma_run_one(st: ParseSt, c: char)
    ensures
        parse_run(st, seq![c]) == parse_step(st, c),
{
    assert(seq![c].first() == c);
    assert(seq![c].drop_first() =~= Seq::<char>::empty());
    assert(parse_run(parse_step(st, c), Seq::<char>::empty()) == parse_step(st, c));
}

/// Running over two characters is two steps.
pub proof fn lemma_run_two(st: ParseSt, c1: char, c2: char)
    ensures
        parse_run(st, seq![c1, c2]) == parse_step(parse_step(st, c1), c2),
{
    assert(seq![c1, c2] =~= seq![c1] + seq![c2]);
    lemma_run_append(st, seq![c1], seq![c2]);
    lemma_run_one(st, c1);
    lemma_run_one(parse_step(st, c1), c2);
}

/// Running over a concatenation runs over the parts in order.
pub proof fn lemma_run_append(st: ParseSt, a: Seq<char>, b: Seq<char>)
    ensures
        parse_run(st, a + b) == parse_run(parse_run(st, a), b),
    decreases a.len(),
{
    if a.len() == 0 {
        assert(a + b =~= b);
    } else {
        assert((a + b).first() == a.first());
        assert((a + b).drop_first() =~= a.drop_first() + b);
        lemma_run_append(parse_step(st, a.first()), a.drop_first(), b);
    }
}

/// Running over one escaped character appends exactly that character to the
/// field being read.
pub proof fn lemma_run_escaped_char(st: ParseSt, c: char)
    requires
        !st.esc,
    ensures
        parse_run(st, escape_char(c)) == (ParseSt { field: st.field.push(c), ..st }),
{
    if c == '\\' || c == '\t' || c == '\n' || c == '\r' {
        let e = escape_char(c);
        assert(e =~= seq![e[0], e[1]]);
        lemma_run_two(st, e[0], e[1]);
        let st1 = parse_step(st, e[0]);
        assert(st1.esc);
        assert(parse_step(st1, e[1]) == (ParseSt { field: st.field.push(c), ..st }));
    } else {
        let e = escape_char(c);
        assert(e =~= seq![c]);
        lemma_run_one(st, c);
        assert(parse_step(st, c) == (ParseSt { field: st.field.push(c), ..st }));
    }
}

/// Running over an escaped field appends exactly that field.
pub proof fn lemma_run_escape_field(st: ParseSt, f: Seq<char>)
    requires
        !st.esc,
    ensures
        parse_run(st, escape_field(f)) == (ParseSt { field: st.field + f, ..st }),
    decreases f.len(),
{
    if f.len() == 0 {
        assert(st.field + f =~= st.field);
        assert(parse_run(st, escape_field(f)) == st);
        assert((ParseSt { field: st.field + f, ..st }) =~= st);
    } else {
        lemma_run_append(st, escape_char(f.first()), escape_field(f.drop_first()));
        lemma_run_escaped_char(st, f.first());
        let st1 = ParseSt { field: st.field.push(f.first()), ..st };
        lemma_run_escape_field(st1, f.drop_first());
        assert(st.field.push(f.first()) + f.drop_first() =~= st.field + f);
    }
}

/// Running over a composed row (starting with an empty field) reads exactly
/// its fields: all but the last land in the row, the last stays pending.
pub proof fn lemma_run_compose_row(st: ParseSt, fields: Seq<Seq<char>>)
    requires
        !st.esc,
        st.field.len() == 0,
        fields.len() >= 1,
    ensures
        parse_run(st, compose_row(fields)) == (ParseSt {
            row: st.row + fields.drop_last(),
            field: fields.last(),
            ..st
        }),
    decreases fields.len(),
{
    if fields.len() == 1 {
        lemma_run_escape_field(st, fields.first());
        assert(st.field + fields.first() =~= fields.first());
        assert(st.row + fields.drop_last() =~= st.row);
        assert(fields.first() == fields.last());
    } else {
        let f0 = fields.first();
        lemma_run_append(st, escape_field(f0) + seq!['\t'], compose_row(fields.drop_first()));
        assert(escape_field(f0) + seq!['\t'] + compose_row(fields.drop_first()) == compose_row(
            fields,
        ));
        lemma_run_append(st, escape_field(f0), seq!['\t']);
        lemma_run_escape_field(st, f0);
        let st1 = ParseSt { field: st.field + f0, ..st };
        lemma_run_one(st1, '\t');
        let st2 = parse_step(st1, '\t');
        assert(st2 == (ParseSt { row: st.row.push(st.field + f0), field: Seq::empty(), ..st }));
        lemma_run_compose_row(st2, fields.drop_first());
        assert(st.field + f0 =~= f0);
        assert(st.row.push(f0) + fields.drop_first().drop_last() =~= st.row + fields.drop_last());
        assert(fields.drop_first().last() == fields.last());
    }
}

/// Parsing inverts composing: any table whose rows each have at least one
/// field comes back unchanged from its clipboard text.
pub proof fn lemma_parse_compose_run(st: ParseSt, rows: Seq<Seq<Seq<char>>>)
    requires
        !st.esc,
        st.field.len() == 0,
        st.row.len() == 0,
        forall|i: int| 0 <= i < rows.len() ==> (#[trigger] rows[i]).len() >= 1,
    ensures
        parse_run(st, compose_spec(rows)) == (ParseSt { done: st.done + rows, ..st }),
    decreases rows.len(),
{
    if rows.len() == 0 {
        assert(st.done + rows =~= st.done);
        assert((ParseSt { done: st.done + rows, ..st }) =~= st);
    } else {
        let r0 = rows.first();
        lemma_run_append(st, compose_row(r0) + seq!['\n'], compose_spec(rows.drop_first()));
        assert(compose_row(r0) + seq!['\n'] + compose_spec(rows.drop_first()) == compose_spec(
            rows,
        ));
        lemma_run_append(st, compose_row(r0), seq!['\n']);
        assert(rows[0].len() >= 1);
        lemma_run_compose_row(st, r0);
        let st1 = ParseSt { row: st.row + r0.drop_last(), field: r0.last(), ..st };
        lemma_run_one(st1, '\n');
        let st2 = parse_step(st1, '\n');
        assert(st1.row.push(st1.field) =~= r0) by {
            assert(st.row + r0.drop_last() =~= r0.drop_last());
            assert(r0.drop_last().push(r0.last()) =~= r0);
        }
        assert(st2 == (ParseSt {
            done: st.done.push(r0),
            row: Seq::empty(),
            field: Seq::empty(),
            ..st
        }));
        lemma_parse_compose_run(st2, rows.drop_first());
        assert(st.done.push(r0) + rows.drop_first() =~= st.done + rows);
    }
}

/// The clipboard round trip: parse after compose is the identity on tables
/// whose rows each have at least one field.
pub proof fn lemma_parse_compose(rows: Seq<Seq<Seq<char>>>)
    requires
        forall|i: int| 0 <= i < rows.len() ==> (#[trigger] rows[i]).len() >= 1,
    ensures
        parse_spec(compose_spec(rows)) == rows,
{
    lemma_parse_compose_run(parse_init(), rows);
    assert(parse_run(parse_init(), compose_spec(rows)).done =~= rows);
}

/// The character matrix of a row of display strings.
pub open spec fn row_view(r: Vec<String>) -> Seq<Seq<char>> {
    r@.map_values(|f: String| f@)
}

/// The character matrix of a table of display strings.
pub open spec fn rows_view(rs: Seq<Vec<String>>) -> Seq<Seq<Seq<char>>> {
    rs.map_values(|r: Vec<String>| row_view(r))
}

/// The characters of a text slice, as a vector.
pub fn chars_of(s: &str) -> (v: Vec<char>)
    ensures
        v@ == s@,
{
    broadcast use vstd::string::next_postcondition;
    broadcast use vstd::string::axiom_spec_iter;

    let mut it = s.chars();
    let mut v: Vec<char> = Vec::new();
    proof {
        assert(IteratorSpec::remaining(&it) == s@);
    }
    loop
        invariant
            IteratorSpec::obeys_prophetic_iter_laws(&it),
            v@ + IteratorSpec::remaining(&it) == s@,
        ensures
            v@ == s@,
        decreases s@.len() - v@.len(),
    {
        let ghost pre = it;
        match it.next() {
            Some(ch) => {
                v.push(ch);
                proof {
                    assert(IteratorSpec::remaining(&pre).len() > 0);
                    assert(v@ + IteratorSpec::remaining(&it) =~= s@);
                }
            },
            None => {
                proof {
                    assert(IteratorSpec::remaining(&pre).len() == 0);
                    assert(v@ + IteratorSpec::remaining(&pre) =~= v@);
                }
                return v;
            },
        }
    }
}

/// A display string from a vector of characters.
pub fn string_of(v: &Vec<char>) -> (s: String)
    ensures
        s@ == v@,
{
    let mut s = String::new();
    let n = v.len();
    let mut i: usize = 0;
    while i < n
        invariant
            n == v@.len(),
            i <= n,
            s@ == v@.take(i as int),
        decreases n - i,
    {
        s.push(v[i]);
        proof {
            assert(v@.take(i + 1) =~= v@.take(i as int).push(v@[i as int]));
        }
        i = i + 1;
    }
    proof {
        assert(v@.take(n as int) =~= v@);
    }
    s
}

/// Compose a table of cell texts into one clipboard text.
pub fn compose(rows: &Vec<Vec<String>>) -> (out: String)
    ensures
        out@ == compose_spec(rows_view(rows@)),
{
    let mut out: Vec<char> = Vec::new();
    let nr = rows.len();
    let mut r: usize = 0;
    while r < nr
        invariant
            nr == rows@.len(),
            r <= nr,
            out@ == compose_spec(rows_view(rows@.take(r as int))),
        decreases nr - r,
    {
        let ghost out_pre = out@;
        let row = &rows[r];
        let nf = row.len();
        let mut f: usize = 0;
        while f < nf
            invariant
                nr == rows@.len(),
                r < nr,
                nf == rows@[r as int]@.len(),
                row == &rows@[r as int],
                f <= nf,
                out@ == out_pre + compose_row_prefix(row_view(rows@[r as int]), f as int),
            decreases nf - f,
        {
            if f > 0 {
                out.push('\t');
            }
            let cell = chars_of(row[f].as_str());
            let nc = cell.len();
            let ghost out_mid = out@;
            let mut k: usize = 0;
            while k < nc
                invariant
                    nc == cell@.len(),
                    k <= nc,
                    out@ == out_mid + escape_field(cell@.take(k as int)),
                decreases nc - k,
            {
                let c = cell[k];
                if c == '\\' {
                    out.push('\\');
                    out.push('\\');
                } else if c == '\t' {
                    out.push('\\');
                    out.push('t');
                } else if c == '\n' {
                    out.push('\\');
                    out.push('n');
                } else if c == '\r' {
                    out.push('\\');
                    out.push('r');
                } else {
                    out.push(c);
                }
                proof {
                    lemma_escape_field_snoc(cell@, k as int);
                    assert(out@ =~= out_mid + escape_field(cell@.take(k + 1)));
                }
                k = k + 1;
            }
            proof {
                assert(cell@.take(nc as int) =~= cell@);
                assert(cell@ == row_view(rows@[r as int])[f as int]);
                lemma_compose_row_prefix_snoc(row_view(rows@[r as int]), f as int);
            }
            f = f + 1;
        }
        out.push('\n');
        proof {
            lemma_compose_row_prefix_full(row_view(rows@[r as int]));
            assert(rows_view(rows@.take(r + 1)) =~= rows_view(rows@.take(r as int)).push(
                row_view(rows@[r as int]),
            ));
            lemma_compose_spec_snoc(rows_view(rows@.take(r as int)), row_view(rows@[r as int]));
            assert(out@ =~= compose_spec(rows_view(rows@.take(r + 1))));
        }
        r = r + 1;
    }
    proof {
        assert(rows_view(rows@.take(nr as int)) =~= rows_view(rows@));
    }
    string_of(&out)
}

/// The first `k` fields of a row, composed (with a trailing separator
/// position ready for the next field).
pub open spec fn compose_row_prefix(fields: Seq<Seq<char>>, k: int) -> Seq<char>
    decreases k,
{
    if k <= 0 {
        Seq::empty()
    } else if k == 1 {
        escape_field(fields[0])
    } else {
        compose_row_prefix(fields, k - 1) + seq!['\t'] + escape_field(fields[k - 1])
    }
}

/// Extending the prefix by one field appends a separator (except first) and
/// the escaped field.
pub proof fn lemma_compose_row_prefix_snoc(fields: Seq<Seq<char>>, k: int)
    requires
        0 <= k < fields.len(),
    ensures
        k == 0 ==> compose_row_prefix(fields, k + 1) == escape_field(fields[0]),
        k > 0 ==> compose_row_prefix(fields, k + 1) == compose_row_prefix(fields, k) + seq!['\t']
            + escape_field(fields[k]),
{
}

/// Appending one escaped character extends the escaped prefix.
pub proof fn lemma_escape_field_snoc(s: Seq<char>, k: int)
    requires
        0 <= k < s.len(),
    ensures
        escape_field(s.take(k + 1)) == escape_field(s.take(k)) + escape_char(s[k]),
    decreases k,
{
    if k == 0 {
        assert(s.take(1).first() == s[0]);
        assert(s.take(1).drop_first() =~= Seq::<char>::empty());
        assert(escape_field(Seq::<char>::empty()) == Seq::<char>::empty());
        assert(escape_field(s.take(1)) == escape_char(s[0]) + escape_field(s.take(1).drop_first()));
        assert(escape_char(s[0]) + escape_field(s.take(1).drop_first()) =~= escape_char(s[0]));
        assert(s.take(0) =~= Seq::<char>::empty());
        assert(escape_field(s.take(0)) == Seq::<char>::empty());
        assert(escape_field(s.take(0)) + escape_char(s[0]) =~= escape_char(s[0]));
    } else {
        assert(s.take(k + 1).first() == s[0]);
        assert(s.take(k).first() == s[0]);
        assert(s.take(k + 1).drop_first() =~= s.drop_first().take(k));
        assert(s.take(k).drop_first() =~= s.drop_first().take(k - 1));
        lemma_escape_field_snoc(s.drop_first(), k - 1);
        assert(s.drop_first()[k - 1] == s[k]);
        assert(escape_char(s[0]) + (escape_field(s.drop_first().take(k - 1)) + escape_char(s[k]))
            =~= (escape_char(s[0]) + escape_field(s.drop_first().take(k - 1))) + escape_char(
            s[k],
        ));
    }
}

/// The full prefix is the composed row.
pub proof fn lemma_compose_row_prefix_full(fields: Seq<Seq<char>>)
    ensures
        compose_row_prefix(fields, fields.len() as int) == compose_row(fields),
    decreases fields.len(),
{
    if fields.len() == 0 {
    } else if fields.len() == 1 {
        assert(fields.first() == fields[0]);
    } else {
        lemma_row_prefix_shift(fields, fields.len() as int);
        lemma_compose_row_prefix_full(fields.drop_first());
        assert(fields.first() == fields[0]);
        assert(compose_row(fields) == escape_field(fields[0]) + seq!['\t'] + compose_row(
            fields.drop_first(),
        ));
    }
}

/// Prefixes of a row agree with prefixes of its tail, shifted by the first
/// field and a separator.
pub proof fn lemma_row_prefix_shift(fields: Seq<Seq<char>>, k: int)
    requires
        2 <= k <= fields.len(),
        fields.len() >= 2,
    ensures
        compose_row_prefix(fields, k) == escape_field(fields[0]) + seq!['\t']
            + compose_row_prefix(fields.drop_first(), k - 1),
    decreases fields.len() + k,
{
    if k == 2 {
        assert(compose_row_prefix(fields, 2) == compose_row_prefix(fields, 1) + seq!['\t']
            + escape_field(fields[1]));
        assert(compose_row_prefix(fields.drop_first(), 1) == escape_field(fields.drop_first()[0]));
        assert(fields.drop_first()[0] == fields[1]);
    } else {
        lemma_row_prefix_shift(fields, k - 1);
        assert(fields.drop_first()[k - 2] == fields[k - 1]);
        assert((escape_field(fields[0]) + seq!['\t'] + compose_row_prefix(
            fields.drop_first(),
            k - 2,
        )) + seq!['\t'] + escape_field(fields[k - 1]) =~= escape_field(fields[0]) + seq!['\t'] + (
        compose_row_prefix(fields.drop_first(), k - 2) + seq!['\t'] + escape_field(
            fields.drop_first()[k - 2],
        )));
    }
}

/// Appending one row to a table appends its composed text.
pub proof fn lemma_compose_spec_snoc(rows: Seq<Seq<Seq<char>>>, row: Seq<Seq<char>>)
    ensures
        compose_spec(rows.push(row)) == compose_spec(rows) + compose_row(row) + seq!['\n'],
    decreases rows.len(),
{
    if rows.len() == 0 {
        assert(rows.push(row).first() == row);
        assert(rows.push(row).drop_first() =~= Seq::<Seq<Seq<char>>>::empty());
        assert(compose_spec(Seq::<Seq<Seq<char>>>::empty()) == Seq::<char>::empty());
        assert(compose_spec(rows.push(row)) == compose_row(row) + seq!['\n'] + compose_spec(
            rows.push(row).drop_first(),
        ));
        assert(compose_row(row) + seq!['\n'] + compose_spec(rows.push(row).drop_first())
            =~= compose_row(row) + seq!['\n']);
        assert(compose_spec(rows) + compose_row(row) + seq!['\n'] =~= compose_row(row)
            + seq!['\n']);
    } else {
        assert(rows.push(row).first() == rows.first());
        assert(rows.push(row).drop_first() =~= rows.drop_first().push(row));
        lemma_compose_spec_snoc(rows.drop_first(), row);
        assert(compose_row(rows.first()) + seq!['\n'] + (compose_spec(rows.drop_first())
            + compose_row(row) + seq!['\n']) =~= (compose_row(rows.first()) + seq!['\n']
            + compose_spec(rows.drop_first())) + compose_row(row) + seq!['\n']);
    }
}

/// Parse a clipboard text into rows of cell texts.
pub fn parse(text: &str) -> (rows: Vec<Vec<String>>)
    ensures
        rows_view(rows@) == parse_spec(text@),
{
    let chars = chars_of(text);
    let n = chars.len();
    let mut done: Vec<Vec<String>> = Vec::new();
    let mut row: Vec<String> = Vec::new();
    let mut field: Vec<char> = Vec::new();
    let mut esc = false;
    let mut i: usize = 0;
    proof {
        assert(text@.take(0) =~= Seq::<char>::empty());
    }
    while i < n
        invariant
            n == chars@.len(),
            chars@ == text@,
            i <= n,
            parse_run(parse_init(), text@.take(i as int)) == (ParseSt {
                done: rows_view(done@),
                row: row_view(row),
                field: field@,
                esc: esc,
            }),
        decreases n - i,
    {
        let c = chars[i];
        let ghost st = ParseSt { done: rows_view(done@), row: row_view(row), field: field@, esc };
        proof {
            assert(text@.take(i + 1) =~= text@.take(i as int) + seq![c]);
            lemma_run_append(parse_init(), text@.take(i as int), seq![c]);
            lemma_run_one(st, c);
        }
        if esc {
            let u = if c == 't' {
                '\t'
            } else if c == 'n' {
                '\n'
            } else if c == 'r' {
                '\r'
            } else {
                c
            };
            field.push(u);
            esc = false;
        } else if c == '\\' {
            esc = true;
        } else if c == '\t' {
            let mut taken: Vec<char> = Vec::new();
            core::mem::swap(&mut taken, &mut field);
            row.push(string_of(&taken));
            proof {
                assert(row_view(row) =~= st.row.push(st.field));
            }
        } else if c == '\n' {
            let mut taken: Vec<char> = Vec::new();
            core::mem::swap(&mut taken, &mut field);
            let mut trow: Vec<String> = Vec::new();
            core::mem::swap(&mut trow, &mut row);
            let mut trow = trow;
            trow.push(string_of(&taken));
            proof {
                assert(row_view(trow) =~= st.row.push(st.field));
            }
            done.push(trow);
            proof {
                assert(rows_view(done@) =~= st.done.push(st.row.push(st.field)));
                assert(row_view(row) =~= Seq::<Seq<char>>::empty());
            }
        } else {
            field.push(c);
        }
        i = i + 1;
    }
    proof {
        assert(text@.take(n as int) =~= text@);
    }
    if field.len() > 0 || row.len() > 0 || esc {
        let mut taken: Vec<char> = Vec::new();
        core::mem::swap(&mut taken, &mut field);
        let ghost strow = row_view(row);
        let ghost stfield = taken@;
        let mut trow: Vec<String> = Vec::new();
        core::mem::swap(&mut trow, &mut row);
        let mut trow = trow;
        trow.push(string_of(&taken));
        proof {
            assert(row_view(trow) =~= strow.push(stfield));
        }
        done.push(trow);
        proof {
            assert(rows_view(done@) =~= parse_spec(text@));
        }
    }
    done
}

} // verus!
