//! The tile map and its text format.
//!
//! The first line holds the width and the height, separated by a comma. Every
//! later line holds comma-separated tile ids, which fill the grid row by row.
//! ASCII whitespace around a field is ignored, and a blank line holds no field.
use vstd::prelude::*;

verus! {

/// Line separator of the text format.
pub const NEWLINE: u8 = 10;

/// Field separator of the text format.
pub const COMMA: u8 = 44;

/// A rectangular grid of tile ids, stored row by row.
pub struct TileMap {
    pub width: usize,
    pub height: usize,
    pub tiles: Vec<usize>,
}

impl TileMap {
    /// The grid holds exactly one tile id per cell.
    pub open spec fn wf(&self) -> bool {
        self.tiles@.len() == self.width * self.height
    }
}

/// Why a map text was rejected.
#[derive(Clone, Copy, Debug, PartialEq, Eq, Structural)]
pub enum MapError {
    /// The first line does not hold exactly two fields; or every field is
    /// well formed but the grid it describes has more cells than `usize`
    /// can count.
    MalformedHeader,
    /// A field is not an unsigned integer that fits in `usize`.
    MalformedValue,
    /// The number of tile ids differs from `width * height`.
    SizeMismatch { expected: usize, actual: usize },
}

/// Whitespace that surrounds a field: space, tab, and the line breaks. The
/// format is ASCII: a multi-byte character, whitespace or not, is part of
/// the field, which then fails to parse.
pub open spec fn is_space(b: u8) -> bool {
    b == 32 || (9 <= b && b <= 13)
}

pub open spec fn is_digit(b: u8) -> bool {
    48 <= b && b <= 57
}

/// The pieces of `s` between occurrences of `sep`; there is always at least one.
pub open spec fn split(s: Seq<u8>, sep: u8) -> Seq<Seq<u8>>
    decreases s.len(),
{
    if s.len() == 0 {
        seq![Seq::empty()]
    } else {
        let p = split(s.drop_last(), sep);
        if s.last() == sep {
            p.push(Seq::empty())
        } else {
            p.update(p.len() - 1, p.last().push(s.last()))
        }
    }
}

/// `s` without its leading whitespace.
pub open spec fn trim_start(s: Seq<u8>) -> Seq<u8>
    decreases s.len(),
{
    if s.len() > 0 && is_space(s[0]) {
        trim_start(s.drop_first())
    } else {
        s
    }
}

/// `s` without its trailing whitespace.
pub open spec fn trim_end(s: Seq<u8>) -> Seq<u8>
    decreases s.len(),
{
    if s.len() > 0 && is_space(s.last()) {
        trim_end(s.drop_last())
    } else {
        s
    }
}

/// `s` without its surrounding whitespace.
pub open spec fn trim(s: Seq<u8>) -> Seq<u8> {
    trim_end(trim_start(s))
}

/// The number written by a sequence of decimal digits.
pub open spec fn digits_value(d: Seq<u8>) -> nat
    decreases d.len(),
{
    if d.len() == 0 {
        0
    } else {
        digits_value(d.drop_last()) * 10 + (d.last() - 48) as nat
    }
}

pub open spec fn all_digits(d: Seq<u8>) -> bool {
    forall|i: int| 0 <= i < d.len() ==> #[trigger] is_digit(d[i])
}

/// A trimmed field without its optional leading `+`.
pub open spec fn unsigned_part(t: Seq<u8>) -> Seq<u8> {
    if t.len() > 0 && t[0] == 43 {
        t.drop_first()
    } else {
        t
    }
}

/// The value of a field: an optional `+` and one or more decimal digits,
/// with surrounding whitespace, whose value fits in `usize`.
pub open spec fn field_value(f: Seq<u8>) -> Option<usize> {
    let d = unsigned_part(trim(f));
    if d.len() > 0 && all_digits(d) && digits_value(d) <= usize::MAX {
        Some(digits_value(d) as usize)
    } else {
        None
    }
}

/// The fields of a line: none when the line is blank.
pub open spec fn line_fields(l: Seq<u8>) -> Seq<Seq<u8>> {
    if trim(l).len() == 0 {
        Seq::empty()
    } else {
        split(l, COMMA)
    }
}

/// The values of a sequence of fields, if every one is well formed.
pub open spec fn fields_values(fs: Seq<Seq<u8>>) -> Option<Seq<usize>>
    decreases fs.len(),
{
    if fs.len() == 0 {
        Some(Seq::empty())
    } else {
        match (fields_values(fs.drop_last()), field_value(fs.last())) {
            (Some(v), Some(x)) => Some(v.push(x)),
            _ => None,
        }
    }
}

/// The values of all fields of a sequence of lines, in order, if every one is
/// well formed.
pub open spec fn lines_values(ls: Seq<Seq<u8>>) -> Option<Seq<usize>>
    decreases ls.len(),
{
    if ls.len() == 0 {
        Some(Seq::empty())
    } else {
        match (lines_values(ls.drop_last()), fields_values(line_fields(ls.last()))) {
            (Some(a), Some(b)) => Some(a + b),
            _ => None,
        }
    }
}

/// What the text `s` decodes to: width, height and tiles, or the error.
pub open spec fn parse_spec(s: Seq<u8>) -> Result<(usize, usize, Seq<usize>), MapError> {
    let ls = split(s, NEWLINE);
    let hf = line_fields(ls[0]);
    if hf.len() == 0 {
        Err(MapError::MalformedHeader)
    } else if field_value(hf[0]) is None {
        Err(MapError::MalformedValue)
    } else if hf.len() == 1 {
        Err(MapError::MalformedHeader)
    } else if field_value(hf[1]) is None {
        Err(MapError::MalformedValue)
    } else if hf.len() > 2 {
        Err(MapError::MalformedHeader)
    } else {
        let w = field_value(hf[0])->Some_0;
        let h = field_value(hf[1])->Some_0;
        match lines_values(ls.drop_first()) {
            None => Err(MapError::MalformedValue),
            Some(t) => if w * h > usize::MAX {
                Err(MapError::MalformedHeader)
            } else if t.len() != w * h {
                Err(MapError::SizeMismatch { expected: (w * h) as usize, actual: t.len() as usize })
            } else {
                Ok((w, h, t))
            },
        }
    }
}

proof fn lemma_split_nonempty(s: Seq<u8>, sep: u8)
    ensures
        split(s, sep).len() >= 1,
    decreases s.len(),
{
    if s.len() > 0 {
        lemma_split_nonempty(s.drop_last(), sep);
    }
}

/// The pieces of `s` between occurrences of `sep`.
fn split_bytes(s: &[u8], sep: u8) -> (r: Vec<Vec<u8>>)
    ensures
        r@.len() == split(s@, sep).len(),
        forall|j: int| 0 <= j < r@.len() ==> #[trigger] r@[j]@ == split(s@, sep)[j],
{
    let mut pieces: Vec<Vec<u8>> = Vec::new();
    let mut cur: Vec<u8> = Vec::new();
    let mut i: usize = 0;
    assert(s@.subrange(0, 0) == Seq::<u8>::empty());
    while i < s.len()
        invariant
            i <= s@.len(),
            split(s@.subrange(0, i as int), sep).len() == pieces@.len() + 1,
            split(s@.subrange(0, i as int), sep).last() == cur@,
            forall|j: int| 0 <= j < pieces@.len() ==> #[trigger] pieces@[j]@ == split(s@.subrange(0, i as int), sep)[j],
        decreases s@.len() - i,
    {
        let ghost prev = s@.subrange(0, i as int);
        let b = s[i];
        i = i + 1;
        proof {
            assert(s@.subrange(0, i as int).drop_last() == prev);
            lemma_split_nonempty(prev, sep);
        }
        if b == sep {
            let done = cur;
            pieces.push(done);
            cur = Vec::new();
        } else {
            cur.push(b);
        }
    }
    assert(s@.subrange(0, s@.len() as int) == s@);
    pieces.push(cur);
    pieces
}

proof fn lemma_trim_start_step(s: Seq<u8>, a: int)
    requires
        0 <= a < s.len(),
        is_space(s[a]),
    ensures
        trim_start(s.subrange(a, s.len() as int)) == trim_start(s.subrange(a + 1, s.len() as int)),
{
    assert(s.subrange(a, s.len() as int).drop_first() == s.subrange(a + 1, s.len() as int));
}

/// `s` without its surrounding whitespace.
fn trim_bytes(s: &[u8]) -> (r: Vec<u8>)
    ensures
        r@ == trim(s@),
{
    let n: usize = s.len();
    let mut a: usize = 0;
    assert(s@.subrange(0, n as int) == s@);
    while a < n && (s[a] == 32 || (9 <= s[a] && s[a] <= 13))
        invariant
            a <= n == s@.len(),
            trim_start(s@) == trim_start(s@.subrange(a as int, n as int)),
        decreases n - a,
    {
        proof {
            lemma_trim_start_step(s@, a as int);
        }
        a = a + 1;
    }
    let ghost t = s@.subrange(a as int, n as int);
    assert(trim_start(s@) == t);
    let mut b: usize = n;
    assert(t.subrange(0, (b - a) as int) == t);
    while b > a && (s[b - 1] == 32 || (9 <= s[b - 1] && s[b - 1] <= 13))
        invariant
            a <= b <= n == s@.len(),
            t == s@.subrange(a as int, n as int),
            trim_end(t) == trim_end(s@.subrange(a as int, b as int)),
        decreases b - a,
    {
        assert(s@.subrange(a as int, b as int).drop_last() == s@.subrange(a as int, b - 1));
        b = b - 1;
    }
    let mut r: Vec<u8> = Vec::new();
    let mut k: usize = a;
    while k < b
        invariant
            a <= k <= b <= n == s@.len(),
            r@ == s@.subrange(a as int, k as int),
        decreases b - k,
    {
        r.push(s[k]);
        k = k + 1;
        assert(r@ == s@.subrange(a as int, k as int));
    }
    r
}

proof fn lemma_digits_prefix(d: Seq<u8>, j: int)
    requires
        all_digits(d),
        0 <= j <= d.len(),
    ensures
        digits_value(d.subrange(0, j)) <= digits_value(d),
    decreases d.len(),
{
    if j < d.len() {
        assert(d.drop_last().subrange(0, j) == d.subrange(0, j));
        assert(all_digits(d.drop_last()));
        lemma_digits_prefix(d.drop_last(), j);
    } else {
        assert(d.subrange(0, j) == d);
    }
}

/// The value of one field, if it is well formed.
fn parse_field(f: &[u8]) -> (r: Option<usize>)
    ensures
        r == field_value(f@),
{
    let t = trim_bytes(f);
    let start: usize = if t.len() > 0 && t[0] == 43 { 1 } else { 0 };
    let ghost d = unsigned_part(t@);
    assert(d == t@.subrange(start as int, t@.len() as int));
    if start >= t.len() {
        return None;
    }
    let mut acc: usize = 0;
    let mut i: usize = start;
    assert(d.subrange(0, 0) == Seq::<u8>::empty());
    while i < t.len()
        invariant
            start <= i <= t@.len(),
            t@ == trim(f@),
            d == unsigned_part(t@),
            d == t@.subrange(start as int, t@.len() as int),
            all_digits(d.subrange(0, i - start)),
            acc as nat == digits_value(d.subrange(0, i - start)),
        decreases t@.len() - i,
    {
        let b = t[i];
        let ghost pre = d.subrange(0, i - start);
        let ghost next = d.subrange(0, i - start + 1);
        assert(next.drop_last() == pre);
        if b < 48 || b > 57 {
            assert(!is_digit(d[i - start]));
            assert(!all_digits(d));
            return None;
        }
        assert(digits_value(next) == acc * 10 + (b - 48) as nat);
        let wide: u128 = acc as u128 * 10 + (b - 48) as u128;
        if wide > usize::MAX as u128 {
            proof {
                if all_digits(d) {
                    lemma_digits_prefix(d, i - start + 1);
                }
            }
            return None;
        }
        acc = wide as usize;
        i = i + 1;
        assert(all_digits(d.subrange(0, i - start)));
    }
    assert(d.subrange(0, i - start) == d);
    Some(acc)
}

/// The fields of a line: none when the line is blank.
fn fields_of_line(l: &[u8]) -> (r: Vec<Vec<u8>>)
    ensures
        r@.len() == line_fields(l@).len(),
        forall|j: int| 0 <= j < r@.len() ==> #[trigger] r@[j]@ == line_fields(l@)[j],
{
    let t = trim_bytes(l);
    if t.len() == 0 {
        Vec::new()
    } else {
        split_bytes(l, COMMA)
    }
}

proof fn lemma_fields_fail(fs: Seq<Seq<u8>>, k: int)
    requires
        0 <= k < fs.len(),
        field_value(fs[k]) is None,
    ensures
        fields_values(fs) is None,
    decreases fs.len(),
{
    if k < fs.len() - 1 {
        lemma_fields_fail(fs.drop_last(), k);
    }
}

proof fn lemma_lines_fail(ls: Seq<Seq<u8>>, k: int)
    requires
        0 <= k < ls.len(),
        fields_values(line_fields(ls[k])) is None,
    ensures
        lines_values(ls) is None,
    decreases ls.len(),
{
    if k < ls.len() - 1 {
        lemma_lines_fail(ls.drop_last(), k);
    }
}

/// Decodes a map from its text.
pub fn parse_map(bytes: &[u8]) -> (r: Result<TileMap, MapError>)
    ensures
        match parse_spec(bytes@) {
            Ok((w, h, t)) => r matches Ok(m) && m.width == w && m.height == h && m.tiles@ == t,
            Err(e) => r == Err::<TileMap, MapError>(e),
        },
        r matches Ok(m) ==> m.wf(),
{
    let ghost ls = split(bytes@, NEWLINE);
    let lines = split_bytes(bytes, NEWLINE);
    proof {
        lemma_split_nonempty(bytes@, NEWLINE);
    }
    let header = fields_of_line(&lines[0]);
    if header.len() == 0 {
        return Err(MapError::MalformedHeader);
    }
    let width = match parse_field(&header[0]) {
        Some(v) => v,
        None => {
            return Err(MapError::MalformedValue);
        },
    };
    if header.len() == 1 {
        return Err(MapError::MalformedHeader);
    }
    let height = match parse_field(&header[1]) {
        Some(v) => v,
        None => {
            return Err(MapError::MalformedValue);
        },
    };
    if header.len() > 2 {
        return Err(MapError::MalformedHeader);
    }
    let mut tiles: Vec<usize> = Vec::new();
    let mut i: usize = 1;
    assert(ls.subrange(1, 1) == Seq::<Seq<u8>>::empty());
    while i < lines.len()
        invariant
            1 <= i <= lines@.len() == ls.len(),
            ls == split(bytes@, NEWLINE),
            forall|j: int| 0 <= j < lines@.len() ==> #[trigger] lines@[j]@ == ls[j],
            line_fields(ls[0]).len() == 2,
            field_value(line_fields(ls[0])[0]) == Some(width),
            field_value(line_fields(ls[0])[1]) == Some(height),
            lines_values(ls.subrange(1, i as int)) == Some(tiles@),
        decreases lines@.len() - i,
    {
        let fields = fields_of_line(&lines[i]);
        let ghost fs = line_fields(ls[i as int]);
        let ghost before = tiles@;
        let mut k: usize = 0;
        assert(fs.subrange(0, 0) == Seq::<Seq<u8>>::empty());
        while k < fields.len()
            invariant
                k <= fields@.len() == fs.len(),
                1 <= i < lines@.len() == ls.len(),
                ls == split(bytes@, NEWLINE),
                fs == line_fields(ls[i as int]),
                line_fields(ls[0]).len() == 2,
                field_value(line_fields(ls[0])[0]) == Some(width),
                field_value(line_fields(ls[0])[1]) == Some(height),
    
                forall|j: int| 0 <= j < fields@.len() ==> #[trigger] fields@[j]@ == fs[j],
                fields_values(fs.subrange(0, k as int)) matches Some(v) && tiles@ == before + v,
            decreases fields@.len() - k,
        {
            match parse_field(&fields[k]) {
                Some(v) => {
                    tiles.push(v);
                },
                None => {
                    proof {
                        lemma_fields_fail(fs, k as int);
                        assert(ls.drop_first()[i - 1] == ls[i as int]);
                        lemma_lines_fail(ls.drop_first(), i - 1);
                        assert(lines_values(ls.drop_first()) is None);
                    }
                    return Err(MapError::MalformedValue);
                },
            }
            k = k + 1;
            assert(fs.subrange(0, k as int).drop_last() == fs.subrange(0, k - 1));
        }
        assert(fs.subrange(0, k as int) == fs);
        i = i + 1;
        assert(ls.subrange(1, i as int).drop_last() == ls.subrange(1, i - 1));
    }
    assert(ls.subrange(1, ls.len() as int) == ls.drop_first());
    let area = match width.checked_mul(height) {
        Some(a) => a,
        None => {
            return Err(MapError::MalformedHeader);
        },
    };
    if tiles.len() != area {
        return Err(MapError::SizeMismatch { expected: area, actual: tiles.len() });
    }
    Ok(TileMap { width, height, tiles })
}

/// The decimal digits of `n`, without leading zeros.
pub open spec fn decimal(n: nat) -> Seq<u8>
    decreases n,
{
    if n < 10 {
        seq![(48 + n) as u8]
    } else {
        decimal(n / 10).push((48 + n % 10) as u8)
    }
}

/// The pieces `ps` with `sep` between each two.
pub open spec fn join(ps: Seq<Seq<u8>>, sep: u8) -> Seq<u8>
    decreases ps.len(),
{
    if ps.len() == 0 {
        Seq::empty()
    } else if ps.len() == 1 {
        ps[0]
    } else {
        join(ps.drop_last(), sep).push(sep) + ps.last()
    }
}

/// The canonical text of a map: the header line, then every tile id on one
/// line, each line ended by a newline.
pub open spec fn text_spec(width: usize, height: usize, tiles: Seq<usize>) -> Seq<u8> {
    decimal(width as nat) + seq![COMMA] + decimal(height as nat) + seq![NEWLINE] + join(
        tiles.map_values(|t: usize| decimal(t as nat)),
        COMMA,
    ) + seq![NEWLINE]
}

fn push_decimal(out: &mut Vec<u8>, n: usize)
    ensures
        final(out)@ == old(out)@ + decimal(n as nat),
    decreases n,
{
    if n >= 10 {
        push_decimal(out, n / 10);
    }
    out.push((48 + n % 10) as u8);
    assert(final(out)@ == old(out)@ + decimal(n as nat));
}

impl TileMap {
    /// The canonical text of the map.
    pub fn to_text(&self) -> (r: Vec<u8>)
        ensures
            r@ == text_spec(self.width, self.height, self.tiles@),
    {
        let mut out: Vec<u8> = Vec::new();
        push_decimal(&mut out, self.width);
        out.push(COMMA);
        push_decimal(&mut out, self.height);
        out.push(NEWLINE);
        let ghost head = out@;
        let ghost ds = self.tiles@.map_values(|t: usize| decimal(t as nat));
        let mut i: usize = 0;
        while i < self.tiles.len()
            invariant
                i <= self.tiles@.len(),
                ds == self.tiles@.map_values(|t: usize| decimal(t as nat)),
                out@ == head + join(ds.subrange(0, i as int), COMMA),
            decreases self.tiles@.len() - i,
        {
            let ghost prev = out@;
            if i > 0 {
                out.push(COMMA);
            }
            push_decimal(&mut out, self.tiles[i]);
            i = i + 1;
            assert(ds.subrange(0, i as int).drop_last() == ds.subrange(0, i - 1));
            if i == 1 {
                assert(join(ds.subrange(0, 0), COMMA) == Seq::<u8>::empty());
            }
            assert(out@ == head + join(ds.subrange(0, i as int), COMMA));
        }
        assert(ds.subrange(0, i as int) == ds);
        out.push(NEWLINE);
        out
    }
}

proof fn lemma_split_concat(a: Seq<u8>, b: Seq<u8>, sep: u8)
    ensures
        split(a + seq![sep] + b, sep) == split(a, sep) + split(b, sep),
    decreases b.len(),
{
    let c = a + seq![sep] + b;
    if b.len() == 0 {
        assert(c.drop_last() == a);
        assert(split(b, sep) == seq![Seq::<u8>::empty()]);
        assert(split(c, sep) == split(a, sep) + split(b, sep));
    } else {
        assert(c.drop_last() == a + seq![sep] + b.drop_last());
        lemma_split_concat(a, b.drop_last(), sep);
        lemma_split_nonempty(b.drop_last(), sep);
        assert(split(c, sep) == split(a, sep) + split(b, sep));
    }
}

proof fn lemma_split_single(s: Seq<u8>, sep: u8)
    requires
        forall|i: int| 0 <= i < s.len() ==> s[i] != sep,
    ensures
        split(s, sep) == seq![s],
    decreases s.len(),
{
    if s.len() > 0 {
        lemma_split_single(s.drop_last(), sep);
        assert(s.drop_last().push(s.last()) == s);
    } else {
        assert(s == Seq::<u8>::empty());
    }
}

proof fn lemma_split_join(ps: Seq<Seq<u8>>, sep: u8)
    requires
        ps.len() >= 1,
        forall|k: int, i: int| 0 <= k < ps.len() && 0 <= i < ps[k].len() ==> #[trigger] ps[k][i] != sep,
    ensures
        split(join(ps, sep), sep) == ps,
    decreases ps.len(),
{
    if ps.len() == 1 {
        assert(forall|i: int| 0 <= i < ps[0].len() ==> ps[0][i] != sep);
        lemma_split_single(ps[0], sep);
        assert(seq![ps[0]] == ps);
    } else {
        let front = ps.drop_last();
        assert(forall|k: int, i: int| 0 <= k < front.len() && 0 <= i < front[k].len() ==> #[trigger] front[k][i] != sep) by {
            assert forall|k: int, i: int| 0 <= k < front.len() && 0 <= i < front[k].len() implies #[trigger] front[k][i] != sep by {
                assert(front[k] == ps[k]);
            }
        }
        lemma_split_join(front, sep);
        assert(forall|i: int| 0 <= i < ps.last().len() ==> ps.last()[i] != sep) by {
            assert forall|i: int| 0 <= i < ps.last().len() implies ps.last()[i] != sep by {
                assert(ps[ps.len() - 1][i] != sep);
            }
        }
        lemma_split_single(ps.last(), sep);
        lemma_split_concat(join(front, sep), ps.last(), sep);
        assert(join(front, sep).push(sep) == join(front, sep) + seq![sep]);
        assert(front + seq![ps.last()] == ps);
    }
}

proof fn lemma_decimal(n: nat)
    ensures
        decimal(n).len() > 0,
        all_digits(decimal(n)),
        digits_value(decimal(n)) == n,
    decreases n,
{
    if n < 10 {
        assert(decimal(n).drop_last() == Seq::<u8>::empty());
        assert(digits_value(decimal(n)) == digits_value(Seq::<u8>::empty()) * 10 + (decimal(n).last() - 48) as nat);
    } else {
        lemma_decimal(n / 10);
        let d = decimal(n);
        assert(d.drop_last() == decimal(n / 10));
        assert(d.last() == (48 + n % 10) as u8);
        assert((n / 10) * 10 + n % 10 == n) by (nonlinear_arith);
        assert((d.last() - 48) as nat == n % 10);
        assert(digits_value(d) == digits_value(d.drop_last()) * 10 + (d.last() - 48) as nat);
        assert(all_digits(d)) by {
            assert forall|i: int| 0 <= i < d.len() implies #[trigger] is_digit(d[i]) by {
                if i < d.len() - 1 {
                    assert(d[i] == decimal(n / 10)[i]);
                }
            }
        }
    }
}

proof fn lemma_trim_plain(s: Seq<u8>)
    requires
        s.len() > 0,
        !is_space(s[0]),
        !is_space(s.last()),
    ensures
        trim(s) == s,
{
}

proof fn lemma_field_decimal(n: usize)
    ensures
        field_value(decimal(n as nat)) == Some(n),
{
    let d = decimal(n as nat);
    lemma_decimal(n as nat);
    assert(is_digit(d[0]) && is_digit(d.last()));
    lemma_trim_plain(d);
}

proof fn lemma_fields_decimals(t: Seq<usize>)
    ensures
        fields_values(t.map_values(|x: usize| decimal(x as nat))) == Some(t),
    decreases t.len(),
{
    let ds = t.map_values(|x: usize| decimal(x as nat));
    if t.len() > 0 {
        assert(ds.drop_last() == t.drop_last().map_values(|x: usize| decimal(x as nat)));
        lemma_fields_decimals(t.drop_last());
        lemma_field_decimal(t.last());
        assert(t.drop_last().push(t.last()) == t);
    } else {
        assert(t == Seq::<usize>::empty());
    }
}

proof fn lemma_no_byte_in_decimals(ds: Seq<Seq<u8>>, b: u8)
    requires
        !is_digit(b),
        forall|k: int| 0 <= k < ds.len() ==> all_digits(#[trigger] ds[k]),
    ensures
        forall|i: int| 0 <= i < join(ds, COMMA).len() ==> #[trigger] join(ds, COMMA)[i] != b || b == COMMA,
    decreases ds.len(),
{
    if ds.len() > 1 {
        let front = ds.drop_last();
        assert forall|k: int| 0 <= k < front.len() implies all_digits(#[trigger] front[k]) by {
            assert(front[k] == ds[k]);
        }
        lemma_no_byte_in_decimals(front, b);
        let last = ds[ds.len() - 1];
        assert(all_digits(last));
        let jf = join(front, COMMA);
        let j = join(ds, COMMA);
        assert(j == jf.push(COMMA) + last);
        assert forall|i: int| 0 <= i < j.len() implies #[trigger] j[i] != b || b == COMMA by {
            if i < jf.len() {
                assert(j[i] == jf[i]);
            } else if i > jf.len() {
                assert(j[i] == last[i - jf.len() - 1]);
                assert(is_digit(last[i - jf.len() - 1]));
            }
        }
    } else if ds.len() == 1 {
        assert(all_digits(ds[0]));
        let j = join(ds, COMMA);
        assert forall|i: int| 0 <= i < j.len() implies #[trigger] j[i] != b || b == COMMA by {
            assert(is_digit(ds[0][i]));
        }
    }
}

proof fn lemma_join_ends(ds: Seq<Seq<u8>>)
    requires
        ds.len() > 0,
        forall|k: int| 0 <= k < ds.len() ==> (#[trigger] ds[k]).len() > 0 && all_digits(ds[k]),
    ensures
        join(ds, COMMA).len() > 0,
        is_digit(join(ds, COMMA)[0]),
        is_digit(join(ds, COMMA).last()),
    decreases ds.len(),
{
    assert(ds[ds.len() - 1].len() > 0 && all_digits(ds[ds.len() - 1]));
    assert(ds[0].len() > 0 && all_digits(ds[0]));
    if ds.len() > 1 {
        lemma_join_ends(ds.drop_last());
        assert(ds.drop_last()[0] == ds[0]);
    }
}

/// Decoding the canonical text of a well-formed map gives back its width,
/// its height and its tiles.
pub proof fn lemma_parse_text(m: TileMap)
    requires
        m.wf(),
        m.tiles@.len() <= usize::MAX,
    ensures
        parse_spec(text_spec(m.width, m.height, m.tiles@)) == Ok::<(usize, usize, Seq<usize>), MapError>(
            (m.width, m.height, m.tiles@),
        ),
{
    let dw = decimal(m.width as nat);
    let dh = decimal(m.height as nat);
    let header = dw + seq![COMMA] + dh;
    let ds = m.tiles@.map_values(|t: usize| decimal(t as nat));
    let body = join(ds, COMMA);
    let text = text_spec(m.width, m.height, m.tiles@);
    lemma_decimal(m.width as nat);
    lemma_decimal(m.height as nat);
    assert forall|k: int| 0 <= k < ds.len() implies (#[trigger] ds[k]).len() > 0 && all_digits(ds[k]) by {
        lemma_decimal(m.tiles@[k] as nat);
    }
    // the lines of the text
    assert forall|i: int| 0 <= i < header.len() implies header[i] != NEWLINE by {
        if i < dw.len() {
            assert(is_digit(dw[i]));
        } else if i > dw.len() {
            assert(is_digit(dh[i - dw.len() - 1]));
        }
    }
    lemma_no_byte_in_decimals(ds, NEWLINE);
    lemma_split_single(header, NEWLINE);
    lemma_split_single(body, NEWLINE);
    assert(text == header + seq![NEWLINE] + (body + seq![NEWLINE] + Seq::<u8>::empty()));
    lemma_split_concat(body, Seq::<u8>::empty(), NEWLINE);
    lemma_split_concat(header, body + seq![NEWLINE] + Seq::<u8>::empty(), NEWLINE);
    let ls = split(text, NEWLINE);
    assert(ls == seq![header, body, Seq::<u8>::empty()]);
    // the header
    assert(is_digit(dw[0]) && is_digit(dh.last()));
    assert(header[0] == dw[0]);
    assert(header.last() == dh.last());
    lemma_trim_plain(header);
    let hs = seq![dw, dh];
    assert(header == join(hs, COMMA)) by {
        assert(hs.drop_last() == seq![dw]);
        assert(join(seq![dw], COMMA) == dw);
        assert(hs.last() == dh);
        assert(dw.push(COMMA) + dh == header);
    }
    assert forall|k: int, i: int| 0 <= k < hs.len() && 0 <= i < hs[k].len() implies #[trigger] hs[k][i] != COMMA by {
        if k == 0 {
            assert(is_digit(dw[i]));
        } else {
            assert(is_digit(dh[i]));
        }
    }
    lemma_split_join(hs, COMMA);
    assert(line_fields(ls[0]) == hs);
    lemma_field_decimal(m.width);
    lemma_field_decimal(m.height);
    // the tiles
    lemma_fields_decimals(m.tiles@);
    if ds.len() == 0 {
        assert(m.tiles@ == Seq::<usize>::empty());
        assert(body == Seq::<u8>::empty());
        assert(line_fields(body) == Seq::<Seq<u8>>::empty());
    } else {
        lemma_join_ends(ds);
        lemma_trim_plain(body);
        assert forall|k: int, i: int| 0 <= k < ds.len() && 0 <= i < ds[k].len() implies #[trigger] ds[k][i] != COMMA by {
            assert(all_digits(ds[k]));
            assert(is_digit(ds[k][i]));
        }
        lemma_split_join(ds, COMMA);
        assert(line_fields(body) == ds);
    }
    assert(trim(Seq::<u8>::empty()) == Seq::<u8>::empty());
    assert(line_fields(Seq::<u8>::empty()) == Seq::<Seq<u8>>::empty());
    let rest = ls.drop_first();
    assert(rest == seq![body, Seq::<u8>::empty()]);
    assert(rest.drop_last() == seq![body]);
    assert(seq![body].drop_last() == Seq::<Seq<u8>>::empty());
    assert(fields_values(line_fields(body)) == Some(m.tiles@));
    assert(lines_values(seq![body]) == Some(m.tiles@)) by {
        assert(seq![body].last() == body);
        assert(lines_values(Seq::<Seq<u8>>::empty()) == Some(Seq::<usize>::empty()));
        assert(Seq::<usize>::empty() + m.tiles@ == m.tiles@);
    }
    assert(lines_values(rest) == Some(m.tiles@)) by {
        assert(rest.last() == Seq::<u8>::empty());
        assert(fields_values(Seq::<Seq<u8>>::empty()) == Some(Seq::<usize>::empty()));
        assert(m.tiles@ + Seq::<usize>::empty() == m.tiles@);
    }
    assert(hs[0] == dw && hs[1] == dh);
    assert(ls[0] == header);
}

} // verus!
