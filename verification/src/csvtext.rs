use vstd::prelude::*;

use vstd::string::StrSliceExecFns;

verus! {

/// The characters that force a field into quotes: the separator, the
/// quote itself, and the record terminators.
pub open spec fn is_csv_special(c: char) -> bool {
    c == ',' || c == '"' || c == '\n' || c == '\r'
}

/// Whether a field must be written in quotes.
pub open spec fn needs_quoting(s: Seq<char>) -> bool {
    exists|i: int| 0 <= i < s.len() && is_csv_special(#[trigger] s[i])
}

/// A field's text with every quote doubled: the inside of a quoted
/// field.
pub open spec fn escaped(s: Seq<char>) -> Seq<char>
    decreases s.len(),
{
    if s.len() == 0 {
        Seq::empty()
    } else if s[0] == '"' {
        seq!['"', '"'] + escaped(s.drop_first())
    } else {
        seq![s[0]] + escaped(s.drop_first())
    }
}

/// A field as written: quoted exactly where its text demands it.
pub open spec fn enc_field(s: Seq<char>) -> Seq<char> {
    if needs_quoting(s) {
        seq!['"'] + escaped(s) + seq!['"']
    } else {
        s
    }
}

/// A record's fields joined with commas.
pub open spec fn joined_fields(fs: Seq<Seq<char>>) -> Seq<char>
    decreases fs.len(),
{
    if fs.len() == 0 {
        Seq::empty()
    } else if fs.len() == 1 {
        enc_field(fs[0])
    } else {
        enc_field(fs[0]) + seq![','] + joined_fields(fs.drop_first())
    }
}

/// One written record: its fields joined, closed by a line feed.
pub open spec fn enc_record(fs: Seq<Seq<char>>) -> Seq<char> {
    joined_fields(fs) + seq!['\n']
}

/// The whole written table, record after record.
pub open spec fn enc_records(rs: Seq<Seq<Seq<char>>>) -> Seq<char>
    decreases rs.len(),
{
    if rs.len() == 0 {
        Seq::empty()
    } else {
        enc_record(rs[0]) + enc_records(rs.drop_first())
    }
}

/// Reads the inside of a quoted field from position `i` up to its
/// closing quote: a doubled quote stands for one quote, and text that
/// ends before the quote closes is refused. Yields the field's text and
/// the position after the closing quote.
pub open spec fn parse_quoted(t: Seq<char>, i: int) -> Option<(Seq<char>, int)>
    decreases t.len() - i,
{
    if i < 0 || i >= t.len() {
        None
    } else if t[i] == '"' {
        if i + 1 < t.len() && t[i + 1] == '"' {
            match parse_quoted(t, i + 2) {
                Some(p) => Some((seq!['"'] + p.0, p.1)),
                None => None,
            }
        } else {
            Some((Seq::empty(), i + 1))
        }
    } else {
        match parse_quoted(t, i + 1) {
            Some(p) => Some((seq![t[i]] + p.0, p.1)),
            None => None,
        }
    }
}

/// Reads a bare field from position `i` up to the next separator,
/// terminator or the end of the text; a stray quote inside is refused.
pub open spec fn parse_unquoted(t: Seq<char>, i: int) -> Option<(Seq<char>, int)>
    decreases t.len() - i,
{
    if i < 0 {
        None
    } else if i >= t.len() || t[i] == ',' || t[i] == '\n' || t[i] == '\r' {
        Some((Seq::empty(), i))
    } else if t[i] == '"' {
        None
    } else {
        match parse_unquoted(t, i + 1) {
            Some(p) => Some((seq![t[i]] + p.0, p.1)),
            None => None,
        }
    }
}

/// Reads one field, quoted or bare.
pub open spec fn parse_field(t: Seq<char>, i: int) -> Option<(Seq<char>, int)> {
    if 0 <= i < t.len() && t[i] == '"' {
        parse_quoted(t, i + 1)
    } else {
        parse_unquoted(t, i)
    }
}

/// Reads one record: fields separated by commas, up to a record
/// terminator or the end of the text.
pub open spec fn parse_record(t: Seq<char>, i: int) -> Option<(Seq<Seq<char>>, int)>
    decreases t.len() - i,
{
    match parse_field(t, i) {
        None => None,
        Some(p) => {
            if p.1 < t.len() && t[p.1] == ',' {
                if i < p.1 + 1 <= t.len() {
                    match parse_record(t, p.1 + 1) {
                        Some(q) => Some((seq![p.0] + q.0, q.1)),
                        None => None,
                    }
                } else {
                    None
                }
            } else {
                Some((seq![p.0], p.1))
            }
        },
    }
}

/// Reads the whole text as records closed by `\n` or `\r\n`; the last
/// record may end at the end of the text instead. Anything else after a
/// record is refused.
pub open spec fn parse_records(t: Seq<char>, i: int) -> Option<Seq<Seq<Seq<char>>>>
    decreases t.len() - i,
{
    if i < 0 {
        None
    } else if i >= t.len() {
        Some(Seq::empty())
    } else {
        match parse_record(t, i) {
            None => None,
            Some(p) => {
                let j = p.1;
                let j2 = if j < t.len() && t[j] == '\n' {
                    j + 1
                } else if j + 1 < t.len() && t[j] == '\r' && t[j + 1] == '\n' {
                    j + 2
                } else if j == t.len() {
                    j
                } else {
                    -1
                };
                if i < j2 <= t.len() {
                    match parse_records(t, j2) {
                        Some(rs) => Some(seq![p.0] + rs),
                        None => None,
                    }
                } else {
                    None
                }
            },
        }
    }
}

/// Relies on `String: FromIterator<&char>`: the string holds exactly
/// the given characters.
#[verifier::external_body]
pub fn string_from_chars(v: &Vec<char>) -> (r: String)
    ensures
        r@ == v@,
{
    v.iter().collect()
}

/// The characters of a string, in order.
pub fn chars_of(s: &str) -> (v: Vec<char>)
    ensures
        v@ == s@,
{
    let n = s.unicode_len();
    let mut v: Vec<char> = Vec::new();
    let mut i: usize = 0;
    while i < n
        invariant
            n == s@.len(),
            0 <= i <= n,
            v@ == s@.take(i as int),
        decreases n - i,
    {
        let c = s.get_char(i);
        v.push(c);
        proof {
            assert(s@.take(i + 1) =~= s@.take(i as int).push(s@[i as int]));
        }
        i += 1;
    }
    proof {
        assert(s@.take(n as int) =~= s@);
    }
    v
}

/// Doubling quotes one character at a time agrees with `escaped`.
proof fn lemma_escaped_push(s: Seq<char>, c: char)
    ensures
        escaped(s.push(c)) == escaped(s) + (if c == '"' {
            seq!['"', '"']
        } else {
            seq![c]
        }),
    decreases s.len(),
{
    let tail: Seq<char> = if c == '"' {
        seq!['"', '"']
    } else {
        seq![c]
    };
    let head: Seq<char> = if s.len() > 0 && s[0] == '"' {
        seq!['"', '"']
    } else if s.len() > 0 {
        seq![s[0]]
    } else {
        Seq::empty()
    };
    if s.len() == 0 {
        assert(s.push(c) =~= seq![c]);
        assert(seq![c].drop_first() =~= Seq::<char>::empty());
        assert(escaped(Seq::<char>::empty()) =~= Seq::<char>::empty());
        assert(escaped(seq![c]) =~= tail);
        assert(escaped(s.push(c)) =~= escaped(s) + tail);
    } else {
        assert(s.push(c)[0] == s[0]);
        assert(s.push(c).len() == s.len() + 1);
        assert(s.push(c).drop_first() =~= s.drop_first().push(c));
        lemma_escaped_push(s.drop_first(), c);
        assert(escaped(s.push(c)) =~= head + escaped(s.drop_first().push(c)));
        assert(escaped(s) =~= head + escaped(s.drop_first()));
        assert(escaped(s.push(c)) =~= escaped(s) + tail);
    }
}

/// Appends `escaped(s@)` to `out`.
fn push_escaped(out: &mut Vec<char>, s: &Vec<char>)
    ensures
        final(out)@ == old(out)@ + escaped(s@),
{
    let ghost base = out@;
    let n = s.len();
    let mut i: usize = 0;
    proof {
        assert(s@.take(0) =~= Seq::<char>::empty());
        assert(base + escaped(s@.take(0)) =~= base);
    }
    while i < n
        invariant
            n == s@.len(),
            0 <= i <= n,
            out@ == base + escaped(s@.take(i as int)),
        decreases n - i,
    {
        let c = s[i];
        if c == '"' {
            out.push('"');
            out.push('"');
        } else {
            out.push(c);
        }
        proof {
            assert(s@.take(i + 1) =~= s@.take(i as int).push(s@[i as int]));
            lemma_escaped_push(s@.take(i as int), s@[i as int]);
            if c == '"' {
                assert(out@ =~= base + escaped(s@.take(i + 1)));
            } else {
                assert(out@ =~= base + escaped(s@.take(i + 1)));
            }
        }
        i += 1;
    }
    proof {
        assert(s@.take(n as int) =~= s@);
    }
}

/// Whether some character of `s` forces quoting.
fn field_needs_quoting(s: &Vec<char>) -> (r: bool)
    ensures
        r == needs_quoting(s@),
{
    let n = s.len();
    let mut i: usize = 0;
    while i < n
        invariant
            n == s@.len(),
            0 <= i <= n,
            forall|j: int| 0 <= j < i ==> !is_csv_special(#[trigger] s@[j]),
        decreases n - i,
    {
        let c = s[i];
        if c == ',' || c == '"' || c == '\n' || c == '\r' {
            return true;
        }
        i += 1;
    }
    false
}

/// Appends `enc_field(s@)` to `out`.
fn push_field(out: &mut Vec<char>, s: &Vec<char>)
    ensures
        final(out)@ == old(out)@ + enc_field(s@),
{
    if field_needs_quoting(s) {
        out.push('"');
        push_escaped(out, s);
        out.push('"');
        proof {
            assert(out@ =~= old(out)@ + enc_field(s@));
        }
    } else {
        let ghost base = out@;
        let n = s.len();
        let mut i: usize = 0;
        while i < n
            invariant
                n == s@.len(),
                0 <= i <= n,
                out@ == base + s@.take(i as int),
            decreases n - i,
        {
            let c = s[i];
            out.push(c);
            proof {
                assert(s@.take(i + 1) =~= s@.take(i as int).push(s@[i as int]));
                assert(out@ =~= base + s@.take(i + 1));
            }
            i += 1;
        }
        proof {
            assert(s@.take(n as int) =~= s@);
        }
    }
}

/// Joining one more field agrees with `joined_fields`.
proof fn lemma_joined_push(fs: Seq<Seq<char>>, f: Seq<char>)
    ensures
        joined_fields(fs.push(f)) == (if fs.len() == 0 {
            enc_field(f)
        } else {
            joined_fields(fs) + seq![','] + enc_field(f)
        }),
    decreases fs.len(),
{
    if fs.len() == 0 {
        assert(fs.push(f) =~= seq![f]);
        assert(joined_fields(seq![f]) == enc_field(f));
        assert(joined_fields(fs.push(f)) =~= enc_field(f));
    } else {
        assert(fs.push(f).drop_first() =~= fs.drop_first().push(f));
        lemma_joined_push(fs.drop_first(), f);
        if fs.len() == 1 {
            assert(fs.drop_first().len() == 0);
            assert(joined_fields(fs.push(f)) =~= joined_fields(fs) + seq![','] + enc_field(f));
        } else {
            assert(joined_fields(fs.push(f)) =~= joined_fields(fs) + seq![','] + enc_field(f));
        }
    }
}

/// Appending one more record agrees with `enc_records`.
proof fn lemma_enc_records_push(rs: Seq<Seq<Seq<char>>>, r: Seq<Seq<char>>)
    ensures
        enc_records(rs.push(r)) == enc_records(rs) + enc_record(r),
    decreases rs.len(),
{
    if rs.len() == 0 {
        assert(rs.push(r) =~= seq![r]);
        assert(rs.push(r)[0] == r);
        assert(seq![r].drop_first() =~= Seq::<Seq<Seq<char>>>::empty());
        assert(enc_records(Seq::<Seq<Seq<char>>>::empty()) =~= Seq::<char>::empty());
        assert(enc_records(rs.push(r)) =~= enc_records(rs) + enc_record(r));
    } else {
        assert(rs.push(r)[0] == rs[0]);
        assert(rs.push(r).len() == rs.len() + 1);
        assert(rs.push(r).drop_first() =~= rs.drop_first().push(r));
        lemma_enc_records_push(rs.drop_first(), r);
        assert(enc_records(rs.push(r)) =~= enc_record(rs[0]) + enc_records(rs.drop_first().push(r)));
        assert(enc_records(rs) =~= enc_record(rs[0]) + enc_records(rs.drop_first()));
        assert((enc_record(rs[0]) + (enc_records(rs.drop_first()) + enc_record(r))) =~= ((
        enc_record(rs[0]) + enc_records(rs.drop_first())) + enc_record(r)));
        assert(enc_records(rs.push(r)) =~= enc_records(rs) + enc_record(r));
    }
}

/// Appends `enc_record` of the record's fields to `out`.
fn push_record(out: &mut Vec<char>, rec: &Vec<Vec<char>>)
    ensures
        final(out)@ == old(out)@ + enc_record(rec.deep_view()),
{
    let ghost base = out@;
    let n = rec.len();
    let mut i: usize = 0;
    proof {
        assert(rec.deep_view().take(0) =~= Seq::<Seq<char>>::empty());
        assert(base + joined_fields(rec.deep_view().take(0)) =~= base);
    }
    while i < n
        invariant
            n == rec@.len(),
            rec.deep_view().len() == rec@.len(),
            forall|j: int| 0 <= j < rec@.len() ==> rec.deep_view()[j] == #[trigger] rec@[j]@,
            0 <= i <= n,
            out@ == base + joined_fields(rec.deep_view().take(i as int)),
        decreases n - i,
    {
        if i > 0 {
            out.push(',');
        }
        push_field(out, &rec[i]);
        proof {
            let dv = rec.deep_view();
            assert(dv.take(i + 1) =~= dv.take(i as int).push(dv[i as int]));
            lemma_joined_push(dv.take(i as int), dv[i as int]);
            assert(out@ =~= base + joined_fields(dv.take(i + 1)));
        }
        i += 1;
    }
    out.push('\n');
    proof {
        assert(rec.deep_view().take(n as int) =~= rec.deep_view());
        assert(out@ =~= base + enc_record(rec.deep_view()));
    }
}

/// Writes a whole table of records as CSV text.
pub fn encode_table(recs: &Vec<Vec<Vec<char>>>) -> (r: String)
    ensures
        r@ == enc_records(recs.deep_view()),
{
    let mut out: Vec<char> = Vec::new();
    let n = recs.len();
    let mut i: usize = 0;
    proof {
        assert(recs.deep_view().take(0) =~= Seq::<Seq<Seq<char>>>::empty());
    }
    while i < n
        invariant
            n == recs@.len(),
            recs.deep_view().len() == recs@.len(),
            forall|j: int|
                0 <= j < recs@.len() ==> recs.deep_view()[j] == #[trigger] recs@[j].deep_view(),
            0 <= i <= n,
            out@ == enc_records(recs.deep_view().take(i as int)),
        decreases n - i,
    {
        push_record(&mut out, &recs[i]);
        proof {
            let dv = recs.deep_view();
            assert(dv.take(i + 1) =~= dv.take(i as int).push(dv[i as int]));
            lemma_enc_records_push(dv.take(i as int), dv[i as int]);
        }
        i += 1;
    }
    proof {
        assert(recs.deep_view().take(n as int) =~= recs.deep_view());
    }
    string_from_chars(&out)
}


/// Reads a quoted field's inside, as `parse_quoted` describes.
fn parse_quoted_x(t: &Vec<char>, i: usize) -> (r: Option<(Vec<char>, usize)>)
    requires
        i <= t@.len(),
    ensures
        (match r {
            Some(p) => parse_quoted(t@, i as int) == Some((p.0@, p.1 as int)) && i <= p.1
                <= t@.len(),
            None => parse_quoted(t@, i as int) is None,
        }),
    decreases t@.len() - i,
{
    if i >= t.len() {
        None
    } else if t[i] == '"' {
        if i + 1 < t.len() && t[i + 1] == '"' {
            match parse_quoted_x(t, i + 2) {
                None => None,
                Some((f, j)) => {
                    let ghost f0 = f@;
                    let mut v = f;
                    v.insert(0, '"');
                    proof {
                        assert(v@ =~= seq!['"'] + f0);
                    }
                    Some((v, j))
                },
            }
        } else {
            Some((Vec::new(), i + 1))
        }
    } else {
        let c = t[i];
        match parse_quoted_x(t, i + 1) {
            None => None,
            Some((f, j)) => {
                let ghost f0 = f@;
                let mut v = f;
                v.insert(0, c);
                proof {
                    assert(v@ =~= seq![t@[i as int]] + f0);
                }
                Some((v, j))
            },
        }
    }
}

/// Reads a bare field, as `parse_unquoted` describes.
fn parse_unquoted_x(t: &Vec<char>, i: usize) -> (r: Option<(Vec<char>, usize)>)
    requires
        i <= t@.len(),
    ensures
        (match r {
            Some(p) => parse_unquoted(t@, i as int) == Some((p.0@, p.1 as int)) && i <= p.1
                <= t@.len(),
            None => parse_unquoted(t@, i as int) is None,
        }),
    decreases t@.len() - i,
{
    if i >= t.len() || t[i] == ',' || t[i] == '\n' || t[i] == '\r' {
        Some((Vec::new(), i))
    } else if t[i] == '"' {
        None
    } else {
        let c = t[i];
        match parse_unquoted_x(t, i + 1) {
            None => None,
            Some((f, j)) => {
                let ghost f0 = f@;
                let mut v = f;
                v.insert(0, c);
                proof {
                    assert(v@ =~= seq![t@[i as int]] + f0);
                }
                Some((v, j))
            },
        }
    }
}

/// Reads one field, as `parse_field` describes.
fn parse_field_x(t: &Vec<char>, i: usize) -> (r: Option<(Vec<char>, usize)>)
    requires
        i <= t@.len(),
    ensures
        (match r {
            Some(p) => parse_field(t@, i as int) == Some((p.0@, p.1 as int)) && i <= p.1
                <= t@.len(),
            None => parse_field(t@, i as int) is None,
        }),
{
    if i < t.len() && t[i] == '"' {
        parse_quoted_x(t, i + 1)
    } else {
        parse_unquoted_x(t, i)
    }
}

/// Reads one record, as `parse_record` describes, handing its fields
/// out as strings.
fn parse_record_x(t: &Vec<char>, i: usize) -> (r: Option<(Vec<String>, usize)>)
    requires
        i <= t@.len(),
    ensures
        (match r {
            Some(p) => parse_record(t@, i as int) == Some((p.0.deep_view(), p.1 as int)) && i
                <= p.1 <= t@.len(),
            None => parse_record(t@, i as int) is None,
        }),
    decreases t@.len() - i,
{
    match parse_field_x(t, i) {
        None => None,
        Some((f, j)) => {
            if j < t.len() && t[j] == ',' {
                match parse_record_x(t, j + 1) {
                    None => None,
                    Some((fs, k)) => {
                        let ghost fs0 = fs.deep_view();
                        let s = string_from_chars(&f);
                        let mut v = fs;
                        v.insert(0, s);
                        proof {
                            assert(v.deep_view() =~= seq![f@] + fs0);
                        }
                        Some((v, k))
                    },
                }
            } else {
                let s = string_from_chars(&f);
                let mut v: Vec<String> = Vec::new();
                v.push(s);
                proof {
                    assert(v.deep_view() =~= seq![f@]);
                }
                Some((v, j))
            }
        },
    }
}

/// Reads a whole CSV text into its records, as `parse_records`
/// describes: `None` is a text that is not a well-formed table.
pub fn parse_table(text: &str) -> (r: Option<Vec<Vec<String>>>)
    ensures
        (match r {
            Some(v) => parse_records(text@, 0) == Some(v.deep_view()),
            None => parse_records(text@, 0) is None,
        }),
{
    let t = chars_of(text);
    let n = t.len();
    let mut out: Vec<Vec<String>> = Vec::new();
    let mut i: usize = 0;
    while i < n
        invariant
            t@ == text@,
            n == t@.len(),
            0 <= i <= n,
            (match parse_records(t@, i as int) {
                Some(rest) => parse_records(t@, 0) == Some(out.deep_view() + rest),
                None => parse_records(t@, 0) is None,
            }),
        decreases n - i,
    {
        let ghost out0 = out.deep_view();
        match parse_record_x(&t, i) {
            None => {
                return None;
            },
            Some((rec, j)) => {
                let j2: usize = if j < n && t[j] == '\n' {
                    j + 1
                } else if j < n && j + 1 < n && t[j] == '\r' && t[j + 1] == '\n' {
                    j + 2
                } else if j == n {
                    j
                } else {
                    return None;
                };
                let ghost rv = rec.deep_view();
                out.push(rec);
                proof {
                    assert(out.deep_view() =~= out0.push(rv));
                    match parse_records(t@, j2 as int) {
                        Some(rest) => {
                            assert(parse_records(t@, i as int) == Some(seq![rv] + rest));
                            assert(out0.push(rv) + rest =~= out0 + (seq![rv] + rest));
                        },
                        None => {
                            assert(parse_records(t@, i as int) is None);
                        },
                    }
                }
                i = j2;
            },
        }
    }
    proof {
        assert(parse_records(t@, i as int) == Some(Seq::<Seq<Seq<char>>>::empty()));
        assert(out.deep_view() + Seq::<Seq<Seq<char>>>::empty() =~= out.deep_view());
    }
    Some(out)
}


/// A bare field written with no quotes reads back as itself, up to the
/// separator that follows it.
proof fn lemma_parse_unquoted_enc(t: Seq<char>, i: int, s: Seq<char>)
    requires
        0 <= i,
        i + s.len() <= t.len(),
        forall|j: int| 0 <= j < s.len() ==> t[i + j] == s[j],
        !needs_quoting(s),
        i + s.len() == t.len() || t[i + s.len()] == ',' || t[i + s.len()] == '\n' || t[i
            + s.len()] == '\r',
    ensures
        parse_unquoted(t, i) == Some((s, i + s.len())),
    decreases s.len(),
{
    if s.len() == 0 {
        assert(parse_unquoted(t, i) == Some((Seq::<char>::empty(), i)));
        assert(Seq::<char>::empty() =~= s);
    } else {
        assert(t[i] == s[0]);
        assert(!is_csv_special(s[0]));
        assert forall|j: int| 0 <= j < s.drop_first().len() implies t[i + 1 + j]
            == s.drop_first()[j] by {
            assert(t[i + (1 + j)] == s[1 + j]);
        }
        assert(!needs_quoting(s.drop_first())) by {
            assert(forall|j: int|
                0 <= j < s.drop_first().len() ==> !is_csv_special(#[trigger] s.drop_first()[j]));
        }
        lemma_parse_unquoted_enc(t, i + 1, s.drop_first());
        assert(seq![t[i]] + s.drop_first() =~= s);
    }
}

/// The inside of a quoted field, written with its quotes doubled, reads
/// back as the field, up to its closing quote.
proof fn lemma_parse_quoted_enc(t: Seq<char>, i: int, s: Seq<char>)
    requires
        0 <= i,
        i + escaped(s).len() + 1 <= t.len(),
        forall|j: int| 0 <= j < escaped(s).len() ==> t[i + j] == escaped(s)[j],
        t[i + escaped(s).len()] == '"',
        i + escaped(s).len() + 1 == t.len() || t[i + escaped(s).len() + 1] != '"',
    ensures
        parse_quoted(t, i) == Some((s, i + escaped(s).len() + 1)),
    decreases s.len(),
{
    if s.len() == 0 {
        assert(escaped(s).len() == 0);
        assert(t[i] == '"');
        assert(parse_quoted(t, i) == Some((Seq::<char>::empty(), i + 1)));
        assert(Seq::<char>::empty() =~= s);
    } else if s[0] == '"' {
        assert(escaped(s) =~= seq!['"', '"'] + escaped(s.drop_first()));
        assert(t[i] == escaped(s)[0]);
        assert(t[i + 1] == escaped(s)[1]);
        assert(t[i] == '"' && t[i + 1] == '"');
        assert forall|j: int| 0 <= j < escaped(s.drop_first()).len() implies t[i + 2 + j]
            == escaped(s.drop_first())[j] by {
            assert(t[i + (2 + j)] == escaped(s)[2 + j]);
            assert(escaped(s)[2 + j] == escaped(s.drop_first())[j]);
        }
        lemma_parse_quoted_enc(t, i + 2, s.drop_first());
        assert(seq!['"'] + s.drop_first() =~= s);
    } else {
        assert(escaped(s) =~= seq![s[0]] + escaped(s.drop_first()));
        assert(t[i] == escaped(s)[0]);
        assert(t[i] == s[0]);
        assert forall|j: int| 0 <= j < escaped(s.drop_first()).len() implies t[i + 1 + j]
            == escaped(s.drop_first())[j] by {
            assert(t[i + (1 + j)] == escaped(s)[1 + j]);
            assert(escaped(s)[1 + j] == escaped(s.drop_first())[j]);
        }
        lemma_parse_quoted_enc(t, i + 1, s.drop_first());
        assert(seq![t[i]] + s.drop_first() =~= s);
    }
}

/// A field written by the encoder reads back as itself, up to the
/// separator or terminator that follows it.
proof fn lemma_parse_field_enc(t: Seq<char>, i: int, s: Seq<char>)
    requires
        0 <= i,
        i + enc_field(s).len() <= t.len(),
        forall|j: int| 0 <= j < enc_field(s).len() ==> t[i + j] == enc_field(s)[j],
        i + enc_field(s).len() == t.len() || t[i + enc_field(s).len()] == ',' || t[i + enc_field(
            s,
        ).len()] == '\n' || t[i + enc_field(s).len()] == '\r',
    ensures
        parse_field(t, i) == Some((s, i + enc_field(s).len())),
{
    if needs_quoting(s) {
        assert(enc_field(s) =~= seq!['"'] + escaped(s) + seq!['"']);
        assert(t[i] == enc_field(s)[0]);
        assert(t[i] == '"');
        assert forall|j: int| 0 <= j < escaped(s).len() implies t[i + 1 + j] == escaped(s)[j] by {
            assert(t[i + (1 + j)] == enc_field(s)[1 + j]);
            assert(enc_field(s)[1 + j] == escaped(s)[j]);
        }
        assert(t[i + 1 + escaped(s).len()] == enc_field(s)[1 + escaped(s).len() as int]);
        assert(t[i + 1 + escaped(s).len()] == '"');
        lemma_parse_quoted_enc(t, i + 1, s);
    } else {
        if s.len() > 0 {
            assert(t[i] == s[0]);
            assert(!is_csv_special(s[0]));
            assert(t[i] != '"');
        }
        lemma_parse_unquoted_enc(t, i, s);
    }
}

/// A record's fields, written joined with commas, read back as exactly
/// those fields, up to the record terminator.
proof fn lemma_parse_record_enc(t: Seq<char>, i: int, fs: Seq<Seq<char>>)
    requires
        0 <= i,
        fs.len() >= 1,
        i + joined_fields(fs).len() <= t.len(),
        forall|j: int| 0 <= j < joined_fields(fs).len() ==> t[i + j] == joined_fields(fs)[j],
        i + joined_fields(fs).len() == t.len() || t[i + joined_fields(fs).len()] == '\n' || t[i
            + joined_fields(fs).len()] == '\r',
    ensures
        parse_record(t, i) == Some((fs, i + joined_fields(fs).len())),
    decreases fs.len(),
{
    if fs.len() == 1 {
        assert(joined_fields(fs) == enc_field(fs[0]));
        lemma_parse_field_enc(t, i, fs[0]);
        assert(seq![fs[0]] =~= fs);
    } else {
        assert(joined_fields(fs) =~= enc_field(fs[0]) + seq![','] + joined_fields(
            fs.drop_first(),
        ));
        let flen = enc_field(fs[0]).len();
        assert forall|j: int| 0 <= j < flen implies t[i + j] == enc_field(fs[0])[j] by {
            assert(t[i + j] == joined_fields(fs)[j]);
            assert(joined_fields(fs)[j] == enc_field(fs[0])[j]);
        }
        assert(t[i + flen] == joined_fields(fs)[flen as int]);
        assert(t[i + flen] == ',');
        lemma_parse_field_enc(t, i, fs[0]);
        assert forall|j: int|
            0 <= j < joined_fields(fs.drop_first()).len() implies t[i + flen + 1 + j]
            == joined_fields(fs.drop_first())[j] by {
            assert(t[i + (flen + 1 + j)] == joined_fields(fs)[flen + 1 + j]);
            assert(joined_fields(fs)[flen + 1 + j] == joined_fields(fs.drop_first())[j]);
        }
        lemma_parse_record_enc(t, i + flen + 1, fs.drop_first());
        assert(seq![fs[0]] + fs.drop_first() =~= fs);
    }
}

/// A whole table written by the encoder and reaching the end of the
/// text reads back as exactly its records.
proof fn lemma_parse_records_enc(t: Seq<char>, i: int, rs: Seq<Seq<Seq<char>>>)
    requires
        0 <= i,
        i + enc_records(rs).len() == t.len(),
        forall|j: int| 0 <= j < enc_records(rs).len() ==> t[i + j] == enc_records(rs)[j],
        forall|x: int| 0 <= x < rs.len() ==> #[trigger] rs[x].len() >= 1,
    ensures
        parse_records(t, i) == Some(rs),
    decreases rs.len(),
{
    if rs.len() == 0 {
        assert(i >= t.len());
        assert(parse_records(t, i) == Some(Seq::<Seq<Seq<char>>>::empty()));
        assert(Seq::<Seq<Seq<char>>>::empty() =~= rs);
    } else {
        assert(enc_records(rs) =~= enc_record(rs[0]) + enc_records(rs.drop_first()));
        assert(enc_record(rs[0]) =~= joined_fields(rs[0]) + seq!['\n']);
        let jlen = joined_fields(rs[0]).len();
        assert forall|j: int| 0 <= j < jlen implies t[i + j] == joined_fields(rs[0])[j] by {
            assert(t[i + j] == enc_records(rs)[j]);
            assert(enc_records(rs)[j] == enc_record(rs[0])[j]);
            assert(enc_record(rs[0])[j] == joined_fields(rs[0])[j]);
        }
        assert(t[i + jlen] == enc_records(rs)[jlen as int]);
        assert(enc_records(rs)[jlen as int] == enc_record(rs[0])[jlen as int]);
        assert(t[i + jlen] == '\n');
        lemma_parse_record_enc(t, i, rs[0]);
        assert(i < t.len());
        assert(enc_record(rs[0]).len() == jlen + 1);
        assert forall|j: int|
            0 <= j < enc_records(rs.drop_first()).len() implies t[i + jlen + 1 + j] == enc_records(
            rs.drop_first(),
        )[j] by {
            assert(t[i + (jlen + 1 + j)] == enc_records(rs)[jlen + 1 + j]);
            assert(enc_records(rs)[jlen + 1 + j] == enc_records(rs.drop_first())[j]);
        }
        lemma_parse_records_enc(t, i + jlen + 1, rs.drop_first());
        assert(seq![rs[0]] + rs.drop_first() =~= rs);
    }
}

/// The decoder inverts the encoder: the written form of any table of
/// records reads back as exactly that table.
pub proof fn lemma_csv_round_trip(rs: Seq<Seq<Seq<char>>>)
    requires
        forall|x: int| 0 <= x < rs.len() ==> #[trigger] rs[x].len() >= 1,
    ensures
        parse_records(enc_records(rs), 0) == Some(rs),
{
    lemma_parse_records_enc(enc_records(rs), 0, rs);
}
} // verus!
