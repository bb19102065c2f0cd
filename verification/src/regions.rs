//! Region sets: per-chromosome lists of half-open intervals, as loaded from
//! a BED-style region file.
//!
//! A region set is kept as a list of `(chromosome name, intervals)` pairs in
//! first-appearance order; consumers only ever look a chromosome up by name.

use vstd::prelude::*;
use vstd::string::StrSliceExecFns;

verus! {

/// The error a region file can raise: a coordinate field that is not an
/// unsigned 32-bit number.  Structural problems short of that (comment
/// lines, blank lines, lines with too few fields) are skipped, not fatal.
#[derive(Clone, Copy, Debug, PartialEq, Eq, Structural)]
pub enum BedParseError {
    InvalidCoordinate,
}

/// Characters that separate fields within a region line.
pub open spec fn is_field_sep(c: char) -> bool {
    c == ' ' || c == '\t' || c == '\r'
}

/// A decimal digit.
pub open spec fn is_digit(c: char) -> bool {
    48 <= c as u32 <= 57
}

/// Numeric value of a digit character.
pub open spec fn digit_val(c: char) -> nat {
    (c as u32 - 48) as nat
}

/// Value of a string of decimal digits.
pub open spec fn spec_digits_value(digits: Seq<char>) -> nat
    decreases digits.len(),
{
    if digits.len() == 0 {
        0
    } else {
        spec_digits_value(digits.drop_last()) * 10 + digit_val(digits.last())
    }
}

/// A string of decimal digits only.
pub open spec fn all_digits(digits: Seq<char>) -> bool {
    forall|i: int| 0 <= i < digits.len() ==> is_digit(#[trigger] digits[i])
}

/// An unsigned coordinate field: an optional `+`, then decimal digits whose
/// value fits in a `u32`.
pub open spec fn spec_parse_u32(field: Seq<char>) -> Option<u32> {
    let digits = if field.len() > 0 && field[0] == '+' {
        field.drop_first()
    } else {
        field
    };
    if digits.len() == 0 {
        None
    } else if !all_digits(digits) {
        None
    } else if spec_digits_value(digits) > u32::MAX {
        None
    } else {
        Some(spec_digits_value(digits) as u32)
    }
}

/// Length of the leading run of non-separator characters.
pub open spec fn token_len(s: Seq<char>) -> int
    decreases s.len(),
{
    if s.len() == 0 {
        0
    } else if is_field_sep(s[0]) {
        0
    } else {
        1 + token_len(s.drop_first())
    }
}

pub proof fn lemma_token_len_bounds(s: Seq<char>)
    ensures
        0 <= token_len(s) <= s.len(),
    decreases s.len(),
{
    if s.len() > 0 && !is_field_sep(s[0]) {
        lemma_token_len_bounds(s.drop_first());
    }
}

/// The separator-delimited fields of one line, in order.
pub open spec fn spec_fields(line: Seq<char>) -> Seq<Seq<char>>
    decreases line.len(),
    via spec_fields_decreases
{
    if line.len() == 0 {
        Seq::empty()
    } else if is_field_sep(line[0]) {
        spec_fields(line.drop_first())
    } else {
        seq![line.take(token_len(line))] + spec_fields(line.skip(token_len(line)))
    }
}

#[via_fn]
proof fn spec_fields_decreases(line: Seq<char>) {
    if line.len() > 0 && !is_field_sep(line[0]) {
        lemma_token_len_bounds(line.drop_first());
        assert(token_len(line) == 1 + token_len(line.drop_first()));
    }
}

/// Length of the first line: the characters before the first newline.
pub open spec fn line_len(s: Seq<char>) -> int
    decreases s.len(),
{
    if s.len() == 0 {
        0
    } else if s[0] == '\n' {
        0
    } else {
        1 + line_len(s.drop_first())
    }
}

pub proof fn lemma_line_len_bounds(s: Seq<char>)
    ensures
        0 <= line_len(s) <= s.len(),
    decreases s.len(),
{
    if s.len() > 0 && s[0] != '\n' {
        lemma_line_len_bounds(s.drop_first());
    }
}

/// What one line contributes: `None` for a fatal coordinate error,
/// `Some(None)` for a skipped line, `Some(Some(triple))` for a region.
pub open spec fn spec_line_entry(line: Seq<char>) -> Option<Option<(Seq<char>, u32, u32)>> {
    if line.len() > 0 && line[0] == '#' {
        Some(None)
    } else {
        let fs = spec_fields(line);
        if fs.len() < 3 {
            Some(None)
        } else {
            match (spec_parse_u32(fs[1]), spec_parse_u32(fs[2])) {
                (Some(a), Some(b)) => Some(Some((fs[0], a, b))),
                _ => None,
            }
        }
    }
}

/// The region triples of a whole file, line by line, or `None` when a line
/// carries an unparseable coordinate.
pub open spec fn spec_parse_bed(s: Seq<char>) -> Option<Seq<(Seq<char>, u32, u32)>>
    decreases s.len(),
    via spec_parse_bed_decreases
{
    if s.len() == 0 {
        Some(Seq::empty())
    } else {
        let n = line_len(s);
        let line = s.take(n);
        let rest = if n < s.len() {
            s.skip(n + 1)
        } else {
            s.skip(n)
        };
        match spec_line_entry(line) {
            None => None,
            Some(None) => spec_parse_bed(rest),
            Some(Some(t)) => match spec_parse_bed(rest) {
                Some(ts) => Some(seq![t] + ts),
                None => None,
            },
        }
    }
}

#[via_fn]
proof fn spec_parse_bed_decreases(s: Seq<char>) {
    if s.len() > 0 {
        lemma_line_len_bounds(s);
    }
}

/// View of a region set: names and interval lists as sequences.
pub open spec fn region_map_view(entries: Seq<(String, Vec<(u32, u32)>)>) -> Seq<
    (Seq<char>, Seq<(u32, u32)>),
> {
    entries.map_values(|e: (String, Vec<(u32, u32)>)| (e.0@, e.1@))
}

/// Record one interval under its chromosome: appended to the first entry
/// with that name, or opening a new entry at the end.
pub open spec fn add_to_group(
    groups: Seq<(Seq<char>, Seq<(u32, u32)>)>,
    name: Seq<char>,
    interval: (u32, u32),
) -> Seq<(Seq<char>, Seq<(u32, u32)>)>
    decreases groups.len(),
{
    if groups.len() == 0 {
        seq![(name, seq![interval])]
    } else if groups[0].0 == name {
        seq![(groups[0].0, groups[0].1.push(interval))] + groups.drop_first()
    } else {
        seq![groups[0]] + add_to_group(groups.drop_first(), name, interval)
    }
}

/// Fold region triples into per-chromosome groups, in file order.
pub open spec fn spec_group_from(
    acc: Seq<(Seq<char>, Seq<(u32, u32)>)>,
    triples: Seq<(Seq<char>, u32, u32)>,
) -> Seq<(Seq<char>, Seq<(u32, u32)>)>
    decreases triples.len(),
{
    if triples.len() == 0 {
        acc
    } else {
        spec_group_from(
            add_to_group(acc, triples[0].0, (triples[0].1, triples[0].2)),
            triples.skip(1),
        )
    }
}

/// Exactly when a scan finds no newline in `[pos, j)` and a newline or the
/// end at `j`, the first line of the suffix at `pos` is `j - pos` long.
proof fn lemma_line_len_at(s: Seq<char>, pos: int, j: int)
    requires
        0 <= pos <= j <= s.len(),
        forall|k: int| pos <= k < j ==> s[k] != '\n',
        j < s.len() ==> s[j] == '\n',
    ensures
        line_len(s.skip(pos)) == j - pos,
    decreases j - pos,
{
    if pos == j {
        if j < s.len() {
            assert(s.skip(pos)[0] == s[pos]);
        }
    } else {
        assert(s.skip(pos)[0] == s[pos]);
        assert(s.skip(pos).drop_first() =~= s.skip(pos + 1));
        lemma_line_len_at(s, pos + 1, j);
    }
}

/// The same, for a token scan with separators.
proof fn lemma_token_len_at(s: Seq<char>, pos: int, j: int)
    requires
        0 <= pos <= j <= s.len(),
        forall|k: int| pos <= k < j ==> !is_field_sep(s[k]),
        j < s.len() ==> is_field_sep(s[j]),
    ensures
        token_len(s.skip(pos)) == j - pos,
    decreases j - pos,
{
    if pos == j {
        if j < s.len() {
            assert(s.skip(pos)[0] == s[pos]);
        }
    } else {
        assert(s.skip(pos)[0] == s[pos]);
        assert(s.skip(pos).drop_first() =~= s.skip(pos + 1));
        lemma_token_len_at(s, pos + 1, j);
    }
}

/// The characters of a string, as an indexable vector.
fn str_chars(s: &str) -> (v: Vec<char>)
    ensures
        v@ == s@,
{
    let n = s.unicode_len();
    let mut v: Vec<char> = Vec::new();
    let mut i: usize = 0;
    while i < n
        invariant
            n == s@.len(),
            i <= n,
            v@.len() == i,
            forall|j: int| 0 <= j < i ==> v@[j] == s@[j],
        decreases n - i,
    {
        v.push(s.get_char(i));
        i = i + 1;
    }
    proof {
        assert(v@ =~= s@);
    }
    v
}

/// Copy of the characters `v[from..to]`.
fn subvec_chars(v: &Vec<char>, from: usize, to: usize) -> (out: Vec<char>)
    requires
        from <= to <= v@.len(),
    ensures
        out@ == v@.subrange(from as int, to as int),
{
    let mut out: Vec<char> = Vec::new();
    let mut k = from;
    while k < to
        invariant
            from <= k <= to <= v@.len(),
            out@.len() == k - from,
            forall|x: int| 0 <= x < out@.len() ==> out@[x] == v@[from + x],
        decreases to - k,
    {
        out.push(v[k]);
        k = k + 1;
    }
    proof {
        assert(out@ =~= v@.subrange(from as int, to as int));
    }
    out
}

/// The field boundaries of one line: for every field, the index range it
/// occupies.
fn find_fields(line: &Vec<char>) -> (fs: Vec<(usize, usize)>)
    ensures
        fs@.len() == spec_fields(line@).len(),
        forall|k: int|
            0 <= k < fs@.len() ==> (#[trigger] fs@[k]).0 <= fs@[k].1 <= line@.len()
                && line@.subrange(fs@[k].0 as int, fs@[k].1 as int) == spec_fields(line@)[k],
{
    let ghost ls = line@;
    let n = line.len();
    let mut fs: Vec<(usize, usize)> = Vec::new();
    proof {
        assert(ls.skip(0) =~= ls);
        assert(fs@.map_values(|p: (usize, usize)| ls.subrange(p.0 as int, p.1 as int)) =~= Seq::<
            Seq<char>,
        >::empty());
    }
    let mut i: usize = 0;
    while i < n
        invariant
            line@ == ls,
            n == ls.len(),
            i <= n,
            forall|k: int|
                0 <= k < fs@.len() ==> (#[trigger] fs@[k]).0 <= fs@[k].1 <= ls.len(),
            spec_fields(ls) == fs@.map_values(
                |p: (usize, usize)| ls.subrange(p.0 as int, p.1 as int),
            ) + spec_fields(ls.skip(i as int)),
        decreases n - i,
    {
        if is_sep(line[i]) {
            proof {
                assert(ls.skip(i as int)[0] == ls[i as int]);
                assert(ls.skip(i as int).drop_first() =~= ls.skip(i + 1));
            }
            i = i + 1;
        } else {
            let start = i;
            let mut j = i;
            while j < n && !(line[j] == ' ' || line[j] == '\t' || line[j] == '\r')
                invariant
                    line@ == ls,
                    n == ls.len(),
                    i <= j <= n,
                    forall|k: int| i <= k < j ==> !is_field_sep(#[trigger] ls[k]),
                decreases n - j,
            {
                j = j + 1;
            }
            proof {
                lemma_token_len_at(ls, i as int, j as int);
                assert(ls.skip(i as int).take(j - i) =~= ls.subrange(i as int, j as int));
                assert(ls.skip(i as int).skip(j - i) =~= ls.skip(j as int));
                assert(spec_fields(ls.skip(i as int)) == seq![
                    ls.subrange(i as int, j as int),
                ] + spec_fields(ls.skip(j as int)));
            }
            fs.push((start, j));
            proof {
                assert(fs@.map_values(|p: (usize, usize)| ls.subrange(p.0 as int, p.1 as int))
                    =~= fs@.drop_last().map_values(
                    |p: (usize, usize)| ls.subrange(p.0 as int, p.1 as int),
                ) + seq![ls.subrange(start as int, j as int)]);
            }
            i = j;
        }
    }
    proof {
        assert(ls.skip(n as int) =~= Seq::<char>::empty());
        assert(spec_fields(ls) =~= fs@.map_values(
            |p: (usize, usize)| ls.subrange(p.0 as int, p.1 as int),
        ));
        assert forall|k: int| 0 <= k < fs@.len() implies line@.subrange(
            (#[trigger] fs@[k]).0 as int,
            fs@[k].1 as int,
        ) == spec_fields(line@)[k] by {
            assert(spec_fields(ls)[k] == fs@.map_values(
                |p: (usize, usize)| ls.subrange(p.0 as int, p.1 as int),
            )[k]);
        }
    }
    fs
}

/// Whether a character separates fields.
fn is_sep(c: char) -> (r: bool)
    ensures
        r == is_field_sep(c),
{
    c == ' ' || c == '\t' || c == '\r'
}

/// Parse the coordinate field at `line[from..to]`.
fn parse_u32_field(line: &Vec<char>, from: usize, to: usize) -> (r: Option<u32>)
    requires
        from <= to <= line@.len(),
    ensures
        r == spec_parse_u32(line@.subrange(from as int, to as int)),
{
    let ghost ls = line@;
    let ghost field = ls.subrange(from as int, to as int);
    let mut i = from;
    if i < to && line[i] == '+' {
        i = i + 1;
    }
    let ghost d0 = i as int;
    let ghost digits = ls.subrange(d0, to as int);
    proof {
        if field.len() > 0 && field[0] == '+' {
            assert(field[0] == ls[from as int]);
            assert(digits =~= field.drop_first());
        } else {
            assert(digits =~= field);
        }
        assert(ls.subrange(d0, d0) =~= Seq::<char>::empty());
    }
    if i == to {
        return None;
    }
    let mut val: u64 = 0;
    let mut over = false;
    while i < to
        invariant
            line@ == ls,
            0 <= d0,
            d0 <= i as int,
            i <= to,
            to <= ls.len(),
            from <= to,
            from <= d0,
            digits == ls.subrange(d0, to as int),
            digits.len() > 0,
            field == ls.subrange(from as int, to as int),
            digits == (if field.len() > 0 && field[0] == '+' {
                field.drop_first()
            } else {
                field
            }),
            forall|k: int| d0 <= k < i as int ==> is_digit(#[trigger] ls[k]),
            !over ==> val == spec_digits_value(ls.subrange(d0, i as int)) && val <= u32::MAX,
            over ==> spec_digits_value(ls.subrange(d0, i as int)) > u32::MAX,
        decreases to - i,
    {
        let c = line[i];
        let cu = c as u32;
        proof {
            assert(d0 <= i as int && i < to);
            let ext = ls.subrange(d0, i + 1);
            assert(ext.drop_last() =~= ls.subrange(d0, i as int));
            assert(ext.last() == ls[i as int]);
            assert(ext.len() >= 1);
            assert(spec_digits_value(ext) == spec_digits_value(ext.drop_last()) * 10 + digit_val(
                ext.last(),
            ));
            assert(spec_digits_value(ext) == spec_digits_value(ls.subrange(d0, i as int)) * 10
                + digit_val(ls[i as int]));
        }
        if cu < 48 || cu > 57 {
            proof {
                assert(ls.subrange(d0, to as int)[i - d0] == ls[i as int]);
                assert(digits[i - d0] == ls[i as int]);
                assert(!is_digit(digits[i - d0]));
                let specd = if field.len() > 0 && field[0] == '+' {
                    field.drop_first()
                } else {
                    field
                };
                assert(specd == digits);
                assert(!all_digits(specd)) by {
                    assert(0 <= i - d0 < specd.len() && !is_digit(specd[i - d0]));
                }
                assert(spec_parse_u32(field) is None);
            }
            return None;
        }
        let d = (cu - 48) as u64;
        if !over {
            let nv = val * 10 + d;
            if nv > u32::MAX as u64 {
                over = true;
            } else {
                val = nv;
            }
            proof {
                assert(digit_val(ls[i as int]) == d);
            }
        } else {
            proof {
                let prev = spec_digits_value(ls.subrange(d0, i as int));
                assert(prev * 10 >= (u32::MAX as nat + 1) * 10);
            }
        }
        i = i + 1;
    }
    proof {
        assert(ls.subrange(d0, to as int) =~= digits);
        assert forall|k: int| 0 <= k < digits.len() implies is_digit(#[trigger] digits[k]) by {
            assert(digits[k] == ls[d0 + k]);
        }
    }
    if over {
        None
    } else {
        Some(val as u32)
    }
}

/// Record one parsed interval in the region set under construction.
fn group_insert(regions: &mut Vec<(String, Vec<(u32, u32)>)>, name: String, interval: (u32, u32))
    ensures
        region_map_view(final(regions)@) == add_to_group(
            region_map_view(old(regions)@),
            name@,
            interval,
        ),
{
    let ghost g = region_map_view(regions@);
    proof {
        assert(g.skip(0) =~= g);
        assert(g.take(0) + add_to_group(g.skip(0), name@, interval) =~= add_to_group(
            g,
            name@,
            interval,
        ));
    }
    let mut i: usize = 0;
    while i < regions.len()
        invariant
            regions@ == old(regions)@,
            g == region_map_view(regions@),
            i <= g.len(),
            g.len() == regions@.len(),
            forall|j: int| 0 <= j < i ==> (#[trigger] g[j]).0 != name@,
            add_to_group(g, name@, interval) == g.take(i as int) + add_to_group(
                g.skip(i as int),
                name@,
                interval,
            ),
        decreases g.len() - i,
    {
        proof {
            assert(g[i as int] == (regions@[i as int].0@, regions@[i as int].1@));
            assert(g.skip(i as int)[0] == g[i as int]);
            assert(g.skip(i as int).drop_first() =~= g.skip(i + 1));
            assert(g.take(i + 1) =~= g.take(i as int) + seq![g[i as int]]);
        }
        if regions[i].0.eq(&name) {
            let mut entry = regions.remove(i);
            entry.1.push(interval);
            regions.insert(i, entry);
            proof {
                assert(add_to_group(g.skip(i as int), name@, interval) == seq![
                    (g[i as int].0, g[i as int].1.push(interval)),
                ] + g.skip(i + 1));
                assert(region_map_view(regions@) =~= g.take(i as int) + (seq![
                    (g[i as int].0, g[i as int].1.push(interval)),
                ] + g.skip(i + 1)));
            }
            return ;
        }
        i = i + 1;
    }
    let mut intervals: Vec<(u32, u32)> = Vec::new();
    intervals.push(interval);
    proof {
        assert(g.skip(g.len() as int) =~= Seq::<(Seq<char>, Seq<(u32, u32)>)>::empty());
        assert(g.take(g.len() as int) =~= g);
        assert(intervals@ =~= seq![interval]);
    }
    let ghost name_view = name@;
    regions.push((name, intervals));
    proof {
        assert(region_map_view(regions@) =~= g + seq![(name_view, seq![interval])]);
        assert(add_to_group(g, name_view, interval) == g + add_to_group(
            Seq::<(Seq<char>, Seq<(u32, u32)>)>::empty(),
            name_view,
            interval,
        ));
        assert(add_to_group(
            Seq::<(Seq<char>, Seq<(u32, u32)>)>::empty(),
            name_view,
            interval,
        ) == seq![(name_view, seq![interval])]);
    }
}

/// One step of line-by-line parsing: the parse of the suffix at `pos`
/// combines the line `[pos, j)` with the parse of what follows it.
proof fn lemma_parse_step(s: Seq<char>, pos: int, j: int)
    requires
        0 <= pos <= j <= s.len(),
        pos < s.len(),
        forall|k: int| pos <= k < j ==> s[k] != '\n',
        j < s.len() ==> s[j] == '\n',
    ensures
        ({
            let line = s.subrange(pos, j);
            let rest = if j < s.len() {
                s.skip(j + 1)
            } else {
                s.skip(j)
            };
            spec_parse_bed(s.skip(pos)) == match spec_line_entry(line) {
                None => None::<Seq<(Seq<char>, u32, u32)>>,
                Some(None) => spec_parse_bed(rest),
                Some(Some(t)) => match spec_parse_bed(rest) {
                    Some(ts) => Some(seq![t] + ts),
                    None => None,
                },
            }
        }),
{
    lemma_line_len_at(s, pos, j);
    let sk = s.skip(pos);
    assert(sk.len() > 0);
    assert(line_len(sk) == j - pos);
    assert(sk.take(j - pos) =~= s.subrange(pos, j));
    if j < s.len() {
        assert(sk.skip(j - pos + 1) =~= s.skip(j + 1));
    } else {
        assert(sk.skip(j - pos) =~= s.skip(j));
    }
}

/// Parse the text of a BED-style region file into per-chromosome interval
/// lists, in first-appearance order.
///
/// Lines hold separator-delimited fields: chromosome name, start, end.
/// Comment lines (starting `#`), blank lines and lines with fewer than
/// three fields are skipped; a start or end field that is not an unsigned
/// 32-bit number fails the whole parse.
pub fn parse_bed_text(text: &str) -> (r: Result<Vec<(String, Vec<(u32, u32)>)>, BedParseError>)
    ensures
        match r {
            Ok(regions) => spec_parse_bed(text@) is Some && region_map_view(regions@)
                == spec_group_from(Seq::empty(), spec_parse_bed(text@)->0),
            Err(_) => spec_parse_bed(text@) is None,
        },
{
    let chars = str_chars(text);
    let n = chars.len();
    let mut regions: Vec<(String, Vec<(u32, u32)>)> = Vec::new();
    proof {
        assert(text@.skip(0) =~= text@);
        assert(region_map_view(regions@) =~= Seq::<(Seq<char>, Seq<(u32, u32)>)>::empty());
    }
    let mut pos: usize = 0;
    while pos < n
        invariant
            chars@ == text@,
            n == text@.len(),
            pos <= n,
            spec_parse_bed(text@) is Some <==> spec_parse_bed(text@.skip(pos as int)) is Some,
            spec_parse_bed(text@) is Some ==> spec_group_from(
                Seq::empty(),
                spec_parse_bed(text@)->0,
            ) == spec_group_from(
                region_map_view(regions@),
                spec_parse_bed(text@.skip(pos as int))->0,
            ),
        decreases n - pos,
    {
        let ghost sk = text@.skip(pos as int);
        let mut j = pos;
        while j < n && chars[j] != '\n'
            invariant
                chars@ == text@,
                n == text@.len(),
                pos <= j <= n,
                forall|k: int| pos <= k < j ==> text@[k] != '\n',
            decreases n - j,
        {
            j = j + 1;
        }
        proof {
            lemma_parse_step(text@, pos as int, j as int);
        }
        let line = subvec_chars(&chars, pos, j);
        let ghost rest = if j < n {
            text@.skip(j + 1)
        } else {
            text@.skip(j as int)
        };
        let ghost view_before = region_map_view(regions@);
        if !(line.len() > 0 && line[0] == '#') {
            let fields = find_fields(&line);
            if fields.len() >= 3 {
                let f1 = fields[1];
                let f2 = fields[2];
                let a = parse_u32_field(&line, f1.0, f1.1);
                let b = parse_u32_field(&line, f2.0, f2.1);
                match (a, b) {
                    (Some(av), Some(bv)) => {
                        let f0 = fields[0];
                        proof {
                            assert(f0.1 <= line@.len());
                            assert(pos + f0.1 <= j);
                            assert(text@.subrange(pos + f0.0, pos + f0.1) =~= line@.subrange(
                                f0.0 as int,
                                f0.1 as int,
                            ));
                            assert(spec_line_entry(line@) == Some(
                                Some((line@.subrange(f0.0 as int, f0.1 as int), av, bv)),
                            ));
                        }
                        let name = text.substring_char(pos + f0.0, pos + f0.1).to_owned();
                        let ghost t = (line@.subrange(f0.0 as int, f0.1 as int), av, bv);
                        group_insert(&mut regions, name, (av, bv));
                        proof {
                            if spec_parse_bed(text@) is Some {
                                let ts = spec_parse_bed(rest)->0;
                                assert(spec_parse_bed(sk)->0 == seq![t] + ts);
                                assert((seq![t] + ts)[0] == t);
                                assert((seq![t] + ts).skip(1) =~= ts);
                                assert(spec_group_from(view_before, seq![t] + ts)
                                    == spec_group_from(
                                    add_to_group(view_before, t.0, (t.1, t.2)),
                                    ts,
                                ));
                            }
                        }
                    },
                    _ => {
                        proof {
                            assert(spec_line_entry(line@) is None);
                            assert(spec_parse_bed(sk) is None);
                        }
                        return Err(BedParseError::InvalidCoordinate);
                    },
                }
            } else {
                proof {
                    assert(spec_line_entry(line@) == Some(None::<(Seq<char>, u32, u32)>));
                }
            }
        } else {
            proof {
                assert(spec_line_entry(line@) == Some(None::<(Seq<char>, u32, u32)>));
            }
        }
        pos = if j < n {
            j + 1
        } else {
            j
        };
    }
    proof {
        assert(text@.skip(n as int) =~= Seq::<char>::empty());
    }
    Ok(regions)
}

/// The interval list recorded for `name`: the first entry carrying that
/// name, or `None` when no entry does.
pub open spec fn spec_lookup(
    entries: Seq<(String, Vec<(u32, u32)>)>,
    name: Seq<char>,
) -> Option<Seq<(u32, u32)>>
    decreases entries.len(),
{
    if entries.len() == 0 {
        None
    } else if entries[0].0@ == name {
        Some(entries[0].1@)
    } else {
        spec_lookup(entries.drop_first(), name)
    }
}

/// Look a chromosome up in a region set by name.
pub fn region_map_get<'a>(
    entries: &'a Vec<(String, Vec<(u32, u32)>)>,
    name: &String,
) -> (r: Option<&'a Vec<(u32, u32)>>)
    ensures
        match r {
            Some(intervals) => spec_lookup(entries@, name@) == Some(intervals@),
            None => spec_lookup(entries@, name@) is None,
        },
{
    let ghost es = entries@;
    proof {
        assert(es.skip(0) =~= es);
    }
    let mut i: usize = 0;
    while i < entries.len()
        invariant
            entries@ == es,
            i <= es.len(),
            spec_lookup(es, name@) == spec_lookup(es.skip(i as int), name@),
        decreases es.len() - i,
    {
        proof {
            assert(es.skip(i as int)[0] == es[i as int]);
            assert(es.skip(i as int).drop_first() =~= es.skip(i + 1));
        }
        if entries[i].0.eq(name) {
            return Some(&entries[i].1);
        }
        i = i + 1;
    }
    proof {
        assert(es.skip(es.len() as int) =~= Seq::<(String, Vec<(u32, u32)>)>::empty());
    }
    None
}

} // verus!
