//! Text building blocks: decimal numbers, joining, UTF-8 lengths.

use vstd::prelude::*;
use vstd::utf8::*;

verus! {

/// Appends `c` to `s` (`String::push`).
#[verifier::external_body]
pub(crate) fn push_char(s: &mut String, c: char)
    ensures
        final(s)@ == old(s)@.push(c),
{
    s.push(c);
}

// ----------------------------------------------------------------------------
// Decimal numbers
// ----------------------------------------------------------------------------

/// The ASCII digit for `d < 10`.
pub open spec fn digit_char(d: nat) -> char {
    (48 + d) as char
}

/// The decimal representation of `n`, as `usize`'s `to_string` writes it:
/// no sign, no leading zeros, `"0"` for zero.
pub open spec fn decimal(n: nat) -> Seq<char>
    decreases n,
{
    if n < 10 {
        seq![digit_char(n)]
    } else {
        decimal(n / 10).push(digit_char(n % 10))
    }
}

/// Decimal digits are ASCII.
pub proof fn lemma_decimal_ascii(n: nat)
    ensures
        decimal(n).len() >= 1,
        forall|i: int| 0 <= i < decimal(n).len() ==> '0' <= #[trigger] decimal(n)[i] <= '9',
    decreases n,
{
    if n >= 10 {
        lemma_decimal_ascii(n / 10);
    }
}

/// Appends the decimal representation of `n` to `s`.
fn push_decimal(s: &mut String, n: usize)
    ensures
        final(s)@ == old(s)@ + decimal(n as nat),
    decreases n,
{
    if n >= 10 {
        push_decimal(s, n / 10);
    }
    let d = (n % 10) as u8;
    let c = (48u8 + d) as char;
    proof {
        assert(c == digit_char((n % 10) as nat));
    }
    push_char(s, c);
    proof {
        if n >= 10 {
            assert(old(s)@ + decimal(n as nat) =~= old(s)@ + decimal((n / 10) as nat) + seq![c]);
        } else {
            assert(old(s)@ + decimal(n as nat) =~= old(s)@.push(c));
        }
    }
}

/// The decimal representation of `n` (`n.to_string()`).
pub fn decimal_string(n: usize) -> (s: String)
    ensures
        s@ == decimal(n as nat),
{
    let mut s = String::new();
    push_decimal(&mut s, n);
    proof {
        assert(s@ =~= decimal(n as nat));
    }
    s
}

// ----------------------------------------------------------------------------
// Joining
// ----------------------------------------------------------------------------

/// `parts` joined with `sep` between neighbours (`[String]::join`).
pub open spec fn join(parts: Seq<Seq<char>>, sep: Seq<char>) -> Seq<char>
    decreases parts.len(),
{
    if parts.len() == 0 {
        seq![]
    } else if parts.len() == 1 {
        parts[0]
    } else {
        join(parts.drop_last(), sep) + sep + parts.last()
    }
}

/// The views of a list of strings.
pub open spec fn views(parts: Seq<String>) -> Seq<Seq<char>> {
    parts.map_values(|s: String| s@)
}

/// Appends `parts` joined with `sep` to `out`.
pub fn push_joined(out: &mut String, parts: &[String], sep: &str)
    ensures
        final(out)@ == old(out)@ + join(views(parts@), sep@),
{
    let ghost start = out@;
    let mut i: usize = 0;
    while i < parts.len()
        invariant
            i <= parts.len(),
            out@ == start + join(views(parts@).subrange(0, i as int), sep@),
        decreases parts.len() - i,
    {
        let ghost pre = views(parts@).subrange(0, i as int);
        let ghost post = views(parts@).subrange(0, i + 1);
        if i > 0 {
            out.append(sep);
        }
        out.append(parts[i].as_str());
        proof {
            assert(post.drop_last() =~= pre);
            assert(post.last() == parts@[i as int]@);
            if i == 0 {
                assert(join(post, sep@) == post[0]);
            }
            assert(out@ =~= start + join(post, sep@));
        }
        i = i + 1;
    }
    proof {
        assert(views(parts@).subrange(0, parts.len() as int) =~= views(parts@));
    }
}

// ----------------------------------------------------------------------------
// Byte lengths
// ----------------------------------------------------------------------------

/// The UTF-8 byte length of `s` (what `str::len` returns).
pub open spec fn utf8_len(s: Seq<char>) -> nat {
    encode_utf8(s).len()
}

/// Encoding distributes over concatenation.
pub proof fn lemma_encode_concat(a: Seq<char>, b: Seq<char>)
    ensures
        encode_utf8(a + b) == encode_utf8(a) + encode_utf8(b),
        utf8_len(a + b) == utf8_len(a) + utf8_len(b),
    decreases a.len(),
{
    if a.len() > 0 {
        assert((a + b).drop_first() =~= a.drop_first() + b);
        lemma_encode_concat(a.drop_first(), b);
        assert(encode_utf8(a + b) =~= encode_utf8(a) + encode_utf8(b));
    } else {
        assert(a + b =~= b);
        assert(encode_utf8(a) =~= Seq::<u8>::empty());
        assert(encode_utf8(a) + encode_utf8(b) =~= encode_utf8(b));
    }
}

/// An ASCII sequence takes one byte per character.
pub proof fn lemma_ascii_utf8_len(s: Seq<char>)
    requires
        forall|i: int| 0 <= i < s.len() ==> (#[trigger] s[i] as u32) < 128,
    ensures
        utf8_len(s) == s.len(),
    decreases s.len(),
{
    if s.len() > 0 {
        lemma_ascii_utf8_len(s.drop_first());
        let c = s[0] as u32;
        assert(has_width_1_encoding(c));
    }
}

/// Byte length of a decimal number: one byte per digit.
pub proof fn lemma_decimal_utf8_len(n: nat)
    ensures
        utf8_len(decimal(n)) == decimal(n).len(),
{
    lemma_decimal_ascii(n);
    assert forall|i: int| 0 <= i < decimal(n).len() implies (#[trigger] decimal(n)[i] as u32) < 128 by {
    }
    lemma_ascii_utf8_len(decimal(n));
}


// ----------------------------------------------------------------------------
// Lines and comma-separated fields
// ----------------------------------------------------------------------------

/// Index of the first `c` in `s`, or `s.len()` when there is none.
pub open spec fn first_index_of(s: Seq<char>, c: char) -> nat
    decreases s.len(),
{
    if s.len() == 0 {
        0
    } else if s[0] == c {
        0
    } else {
        1 + first_index_of(s.drop_first(), c)
    }
}

proof fn lemma_first_index_of(s: Seq<char>, c: char)
    ensures
        first_index_of(s, c) <= s.len(),
        forall|k: int| 0 <= k < first_index_of(s, c) ==> s[k] != c,
        first_index_of(s, c) < s.len() ==> s[first_index_of(s, c) as int] == c,
    decreases s.len(),
{
    if s.len() > 0 && s[0] != c {
        lemma_first_index_of(s.drop_first(), c);
        assert forall|k: int| 0 <= k < first_index_of(s, c) implies s[k] != c by {
            if k > 0 {
                assert(s[k] == s.drop_first()[k - 1]);
            }
        }
    }
}

proof fn lemma_first_index_of_is(s: Seq<char>, c: char, i: nat)
    requires
        i <= s.len(),
        forall|k: int| 0 <= k < i ==> s[k] != c,
        i < s.len() ==> s[i as int] == c,
    ensures
        first_index_of(s, c) == i,
{
    lemma_first_index_of(s, c);
    let f = first_index_of(s, c);
    if f < i {
        assert(s[f as int] == c);
    } else if i < f {
        assert(s[i as int] != c);
    }
}

proof fn lemma_first_index_of_push(s: Seq<char>, c: char, ch: char)
    ensures
        first_index_of(s.push(ch), c) == if first_index_of(s, c) < s.len() {
            first_index_of(s, c)
        } else if ch == c {
            s.len()
        } else {
            s.len() + 1
        },
{
    lemma_first_index_of(s, c);
    let t = s.push(ch);
    let f = first_index_of(s, c);
    if f < s.len() {
        lemma_first_index_of_is(t, c, f);
    } else if ch == c {
        lemma_first_index_of_is(t, c, s.len());
    } else {
        lemma_first_index_of_is(t, c, s.len() + 1);
    }
}

/// `t` without one trailing carriage return.
pub open spec fn strip_cr(t: Seq<char>) -> Seq<char> {
    if t.len() > 0 && t.last() == '\r' {
        t.drop_last()
    } else {
        t
    }
}

/// The non-empty lines of `s`, as `str::lines` cuts them: at each `'\n'`,
/// dropping a `'\r'` just before it, with no empty piece after a final
/// `'\n'`.
pub open spec fn nonempty_lines(s: Seq<char>) -> Seq<Seq<char>>
    decreases s.len(),
{
    if s.len() == 0 {
        seq![]
    } else {
        let i = first_index_of(s, '\n');
        if i >= s.len() {
            seq![s]
        } else {
            let line = strip_cr(s.subrange(0, i as int));
            let rest = nonempty_lines(s.subrange(i + 1int, s.len() as int));
            if line.len() > 0 {
                seq![line] + rest
            } else {
                rest
            }
        }
    }
}

/// `l` split at its first comma (`str::split_once(',')`).
pub open spec fn split_once_comma(l: Seq<char>) -> Option<(Seq<char>, Seq<char>)> {
    let j = first_index_of(l, ',');
    if j < l.len() {
        Some((l.subrange(0, j as int), l.subrange(j + 1int, l.len() as int)))
    } else {
        None
    }
}

/// A line as its two fields, or the line itself when it has no comma.
pub open spec fn line_fields(l: Seq<char>) -> Result<(Seq<char>, Seq<char>), Seq<char>> {
    match split_once_comma(l) {
        Some(p) => Ok(p),
        None => Err(l),
    }
}

/// The text of a split line.
pub open spec fn fields_view(r: Result<(String, String), String>) -> Result<
    (Seq<char>, Seq<char>),
    Seq<char>,
> {
    match r {
        Ok((x, y)) => Ok((x@, y@)),
        Err(l) => Err(l@),
    }
}

proof fn lemma_lines_concat(a: Seq<char>, b: Seq<char>)
    requires
        a.len() == 0 || a.last() == '\n',
    ensures
        nonempty_lines(a + b) == nonempty_lines(a) + nonempty_lines(b),
    decreases a.len(),
{
    if a.len() == 0 {
        assert(a + b =~= b);
        assert(nonempty_lines(a) + nonempty_lines(b) =~= nonempty_lines(b));
    } else {
        lemma_first_index_of(a, '\n');
        let i = first_index_of(a, '\n');
        if i >= a.len() {
            assert(a[a.len() - 1] == '\n');
        }
        let ab = a + b;
        assert forall|k: int| 0 <= k < i implies ab[k] != '\n' by {
            assert(ab[k] == a[k]);
        }
        assert(ab[i as int] == a[i as int]);
        lemma_first_index_of_is(ab, '\n', i);
        let a2 = a.subrange(i + 1int, a.len() as int);
        assert(ab.subrange(0, i as int) =~= a.subrange(0, i as int));
        assert(ab.subrange(i + 1int, ab.len() as int) =~= a2 + b);
        if a2.len() > 0 {
            assert(a2.last() == a.last());
        }
        lemma_lines_concat(a2, b);
        let line = strip_cr(a.subrange(0, i as int));
        if line.len() > 0 {
            assert(nonempty_lines(ab) =~= seq![line] + (nonempty_lines(a2) + nonempty_lines(b)));
            assert(nonempty_lines(a) =~= seq![line] + nonempty_lines(a2));
            assert(nonempty_lines(ab) =~= nonempty_lines(a) + nonempty_lines(b));
        } else {
            assert(nonempty_lines(ab) =~= nonempty_lines(a2) + nonempty_lines(b));
        }
    }
}

/// The lines of a text without newline: itself, when not empty.
proof fn lemma_lines_single(cur: Seq<char>)
    requires
        !cur.contains('\n'),
    ensures
        nonempty_lines(cur) == if cur.len() > 0 {
            seq![cur]
        } else {
            Seq::<Seq<char>>::empty()
        },
{
    if cur.len() > 0 {
        lemma_first_index_of_is(cur, '\n', cur.len());
    }
}

/// The lines of a text without newline followed by one newline.
proof fn lemma_lines_closed(cur: Seq<char>)
    requires
        !cur.contains('\n'),
    ensures
        nonempty_lines(cur.push('\n')) == if strip_cr(cur).len() > 0 {
            seq![strip_cr(cur)]
        } else {
            Seq::<Seq<char>>::empty()
        },
{
    let t = cur.push('\n');
    assert forall|k: int| 0 <= k < cur.len() implies t[k] != '\n' by {
        assert(t[k] == cur[k]);
    }
    lemma_first_index_of_is(t, '\n', cur.len());
    assert(t.subrange(0, cur.len() as int) =~= cur);
    let rest = t.subrange(cur.len() + 1int, t.len() as int);
    assert(rest =~= Seq::<char>::empty());
    assert(nonempty_lines(rest) =~= Seq::<Seq<char>>::empty());
    assert(seq![strip_cr(cur)] + nonempty_lines(rest) =~= seq![strip_cr(cur)]);
}

/// The pieces of the line read so far: `line` is the whole line, `first` and
/// `second` the text before and after its first comma (all of it in `first`
/// while there is no comma).
pub open spec fn line_split_state(
    body: Seq<char>,
    line: Seq<char>,
    first: Seq<char>,
    second: Seq<char>,
    has_comma: bool,
) -> bool {
    &&& line == body
    &&& has_comma == (first_index_of(body, ',') < body.len())
    &&& if has_comma {
        first == body.subrange(0, first_index_of(body, ',') as int) && second == body.subrange(
            first_index_of(body, ',') + 1int,
            body.len() as int,
        )
    } else {
        first == body && second.len() == 0
    }
}

fn push_line_char(
    line: &mut String,
    first: &mut String,
    second: &mut String,
    has_comma: &mut bool,
    ch: char,
    Ghost(body): Ghost<Seq<char>>,
)
    requires
        line_split_state(body, old(line)@, old(first)@, old(second)@, *old(has_comma)),
    ensures
        line_split_state(body.push(ch), final(line)@, final(first)@, final(second)@, *final(has_comma)),
{
    proof {
        lemma_first_index_of(body, ',');
        lemma_first_index_of_push(body, ',', ch);
    }
    push_char(line, ch);
    if *has_comma {
        push_char(second, ch);
        proof {
            let j = first_index_of(body, ',');
            assert(body.push(ch).subrange(0, j as int) =~= body.subrange(0, j as int));
            assert(body.push(ch).subrange(j + 1int, body.len() + 1int) =~= body.subrange(j + 1int, body.len() as int).push(ch));
            assert(first_index_of(body.push(ch), ',') == j);
            assert(line_split_state(body.push(ch), line@, first@, second@, *has_comma));
        }
    } else if ch == ',' {
        *has_comma = true;
        proof {
            assert(body.push(ch).subrange(0, body.len() as int) =~= body);
            assert(body.push(ch).subrange(body.len() + 1int, body.len() + 1int) =~= Seq::<char>::empty());
            assert(first_index_of(body.push(ch), ',') == body.len());
            assert(second@ =~= Seq::<char>::empty());
            assert(line_split_state(body.push(ch), line@, first@, second@, *has_comma));
        }
    } else {
        push_char(first, ch);
        proof {
            assert(first_index_of(body.push(ch), ',') == body.len() + 1);
            assert(line_split_state(body.push(ch), line@, first@, second@, *has_comma));
        }
    }
}

/// Splits `data` into its non-empty lines (as `str::lines` cuts them) and
/// each line at its first comma: `Ok((before, after))`, or `Err(line)` for a
/// line without a comma. Nothing is trimmed.
pub fn split_coordinate_lines(data: &str) -> (fields: Vec<Result<(String, String), String>>)
    ensures
        fields@.map_values(|r: Result<(String, String), String>| fields_view(r))
            == nonempty_lines(data@).map_values(|l: Seq<char>| line_fields(l)),
{
    broadcast use vstd::string::group_string_axioms;

    let mut fields: Vec<Result<(String, String), String>> = Vec::new();
    let mut line = String::new();
    let mut first = String::new();
    let mut second = String::new();
    let mut has_comma = false;
    let mut pending_cr = false;
    let ghost mut start: int = 0;
    proof {
        assert(data@.subrange(0, 0) =~= Seq::<char>::empty());
        assert(strip_cr(Seq::<char>::empty()) =~= Seq::<char>::empty());
        assert(line_split_state(Seq::<char>::empty(), line@, first@, second@, has_comma));
        assert(nonempty_lines(Seq::<char>::empty()) =~= Seq::<Seq<char>>::empty());
        assert(fields@.map_values(|r: Result<(String, String), String>| fields_view(r)) =~= nonempty_lines(
            data@.subrange(0, 0)).map_values(|l: Seq<char>| line_fields(l)));
    }
    for ch in it: data.chars()
        invariant
            it.seq() == data@,
            0 <= start <= it.index() <= data@.len(),
            start == 0 || data@[start - 1] == '\n',
            !data@.subrange(start, it.index() as int).contains('\n'),
            fields@.map_values(|r: Result<(String, String), String>| fields_view(r)) == nonempty_lines(
                data@.subrange(0, start),
            ).map_values(|l: Seq<char>| line_fields(l)),
            pending_cr == (data@.subrange(start, it.index() as int).len() > 0 && data@.subrange(
                start,
                it.index() as int,
            ).last() == '\r'),
            line_split_state(
                strip_cr(data@.subrange(start, it.index() as int)),
                line@,
                first@,
                second@,
                has_comma,
            ),
    {
        let ghost pos = it.index() as int;
        let ghost cur = data@.subrange(start, pos);
        proof {
            assert(data@[pos] == ch);
        }
        if ch == '\n' {
            let ghost done = fields@.map_values(|r: Result<(String, String), String>| fields_view(r));
            if !line.as_str().is_empty() {
                proof {
                    assert(line@.len() > 0);
                }
                let ghost lv = line@;
                let ghost fv = first@;
                let ghost sv = second@;
                if has_comma {
                    fields.push(Ok((first, second)));
                } else {
                    fields.push(Err(line));
                }
                proof {
                    assert(fields_view(fields@.last()) == if has_comma { Ok::<(Seq<char>, Seq<char>), Seq<char>>((fv, sv)) } else { Err(lv) });
                    assert(fields@.map_values(|r: Result<(String, String), String>| fields_view(r))
                        =~= done.push(line_fields(strip_cr(cur))));
                }
                line = String::new();
                first = String::new();
                second = String::new();
            } else {
                line = String::new();
                first = String::new();
                second = String::new();
            }
            has_comma = false;
            pending_cr = false;
            proof {
                let prefix = data@.subrange(0, start);
                assert(data@.subrange(0, pos + 1) =~= prefix + cur.push('\n'));
                lemma_lines_concat(prefix, cur.push('\n'));
                lemma_lines_closed(cur);
                start = pos + 1;
                assert(data@.subrange(start, start) =~= Seq::<char>::empty());
                assert(line_split_state(Seq::<char>::empty(), line@, first@, second@, has_comma));
            }
        } else {
            if pending_cr {
                push_line_char(&mut line, &mut first, &mut second, &mut has_comma, '\r', Ghost(strip_cr(cur)));
                proof {
                    assert(strip_cr(cur).push('\r') =~= cur);
                }
            }
            let ghost body = cur;
            if ch == '\r' {
                pending_cr = true;
            } else {
                push_line_char(&mut line, &mut first, &mut second, &mut has_comma, ch, Ghost(cur));
                pending_cr = false;
            }
            proof {
                let cur2 = data@.subrange(start, pos + 1);
                assert(cur2 =~= cur.push(ch));
                assert(strip_cr(cur2) =~= if ch == '\r' { cur } else { cur.push(ch) });
                assert(!cur2.contains('\n')) by {
                    if cur2.contains('\n') {
                        let w = choose|w: int| 0 <= w < cur2.len() && cur2[w] == '\n';
                        if w < cur.len() {
                            assert(cur[w] == '\n');
                        }
                    }
                }
            }
        }
    }
    let ghost cur = data@.subrange(start, data@.len() as int);
    if pending_cr {
        push_line_char(&mut line, &mut first, &mut second, &mut has_comma, '\r', Ghost(strip_cr(cur)));
        proof {
            assert(strip_cr(cur).push('\r') =~= cur);
        }
    }
    let ghost done = fields@.map_values(|r: Result<(String, String), String>| fields_view(r));
    proof {
        let prefix = data@.subrange(0, start);
        assert(data@ =~= prefix + cur);
        lemma_lines_concat(prefix, cur);
        lemma_lines_single(cur);
        assert(line@ == cur);
    }
    if !line.as_str().is_empty() {
        proof {
            assert(line@.len() > 0);
        }
        if has_comma {
            fields.push(Ok((first, second)));
        } else {
            fields.push(Err(line));
        }
        proof {
            assert(fields@.map_values(|r: Result<(String, String), String>| fields_view(r)) =~= done.push(
                line_fields(cur),
            ));
            assert(nonempty_lines(data@) =~= nonempty_lines(data@.subrange(0, start)) + seq![cur]);
        }
    } else {
        proof {
            assert(cur.len() == 0);
            assert(nonempty_lines(data@) =~= nonempty_lines(data@.subrange(0, start)));
        }
    }
    proof {
        assert(fields@.map_values(|r: Result<(String, String), String>| fields_view(r)) =~= nonempty_lines(data@).map_values(|l: Seq<char>| line_fields(l)));
    }
    fields
}


/// Every character takes at least one byte.
pub proof fn lemma_utf8_len_at_least(s: Seq<char>)
    ensures
        utf8_len(s) >= s.len(),
    decreases s.len(),
{
    if s.len() > 0 {
        lemma_utf8_len_at_least(s.drop_first());
        assert(encode_scalar(s[0] as u32).len() >= 1);
    }
}


/// A positive number has at most as many digits as its value.
pub proof fn lemma_decimal_len_bound(n: nat)
    requires
        n >= 1,
    ensures
        decimal(n).len() <= n,
    decreases n,
{
    if n >= 10 {
        lemma_decimal_len_bound(n / 10);
    }
}

} // verus!
