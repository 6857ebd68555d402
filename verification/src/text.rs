//! Small string helpers shared by the serializer and the passes.

use vstd::prelude::*;

verus! {

/// Equality of string slices by their character sequences.
pub fn str_eq(a: &str, b: &str) -> (r: bool)
    ensures
        r == (a@ == b@),
{
    let ao: String = a.to_owned();
    let bo: String = b.to_owned();
    ao == bo
}

/// The characters of a string slice, as a vector.
pub fn str_to_chars(s: &str) -> (v: Vec<char>)
    ensures
        v@ == s@,
{
    let n = s.unicode_len();
    let mut v: Vec<char> = Vec::new();
    let mut i: usize = 0;
    while i < n
        invariant
            i <= n,
            n == s@.len(),
            v@ == s@.subrange(0, i as int),
        decreases n - i,
    {
        let c = s.get_char(i);
        v.push(c);
        proof {
            assert(v@ =~= s@.subrange(0, i + 1));
        }
        i = i + 1;
    }
    proof {
        assert(s@.subrange(0, n as int) =~= s@);
    }
    v
}

/// Relies on `String`'s `FromIterator<char>`: collecting characters yields
/// the string of exactly those characters in order.
#[verifier::external_body]
pub fn chars_to_string(v: Vec<char>) -> (s: String)
    ensures
        s@ == v@,
{
    v.into_iter().collect()
}

/// Append the characters of a string slice onto a character vector.
pub fn push_str_chars(out: &mut Vec<char>, s: &str)
    ensures
        final(out)@ == old(out)@ + s@,
{
    let cs = str_to_chars(s);
    let n = cs.len();
    let mut i: usize = 0;
    while i < n
        invariant
            i <= n,
            n == cs@.len(),
            cs@ == s@,
            out@ == old(out)@ + s@.subrange(0, i as int),
        decreases n - i,
    {
        out.push(cs[i]);
        proof {
            assert(old(out)@ + s@.subrange(0, i as int) + seq![s@[i as int]] =~= old(out)@
                + s@.subrange(0, i + 1));
        }
        i = i + 1;
    }
    proof {
        assert(s@.subrange(0, n as int) =~= s@);
    }
}

} // verus!

verus! {

/// The white-space characters that trimming removes at the edges: the
/// Unicode `White_Space` set.
pub open spec fn is_space_char(c: char) -> bool {
    ||| c == ' '
    ||| c == '\t'
    ||| c == '\n'
    ||| c == '\r'
    ||| c == '\u{000B}'
    ||| c == '\u{000C}'
    ||| c == '\u{0085}'
    ||| c == '\u{00A0}'
    ||| c == '\u{1680}'
    ||| (0x2000 <= c as u32 && c as u32 <= 0x200A)
    ||| c == '\u{2028}'
    ||| c == '\u{2029}'
    ||| c == '\u{202F}'
    ||| c == '\u{205F}'
    ||| c == '\u{3000}'
}

/// The position of the first occurrence of `c`, or the length if absent.
pub open spec fn find_char(s: Seq<char>, c: char) -> nat
    decreases s.len(),
{
    if s.len() == 0 {
        0
    } else if s[0] == c {
        0
    } else {
        1 + find_char(s.drop_first(), c)
    }
}

/// The lines of a text: split at newlines, a carriage return before the
/// newline stripped, the final line ending optional.
pub open spec fn split_lines(s: Seq<char>) -> Seq<Seq<char>>
    decreases s.len(),
{
    if s.len() == 0 {
        Seq::empty()
    } else {
        let i = find_char(s, '\n') as int;
        if i >= s.len() {
            seq![s]
        } else {
            let raw = s.subrange(0, i);
            let line = if raw.len() > 0 && raw.last() == '\r' {
                raw.drop_last()
            } else {
                raw
            };
            seq![line] + split_lines(s.subrange(i + 1, s.len() as int))
        }
    }
}

/// A line with its leading space-like characters removed.
pub open spec fn trim_start(s: Seq<char>) -> Seq<char>
    decreases s.len(),
{
    if s.len() > 0 && is_space_char(s[0]) {
        trim_start(s.drop_first())
    } else {
        s
    }
}

/// A line with its trailing space-like characters removed.
pub open spec fn trim_end(s: Seq<char>) -> Seq<char>
    decreases s.len(),
{
    if s.len() > 0 && is_space_char(s.last()) {
        trim_end(s.drop_last())
    } else {
        s
    }
}

/// A line with space-like characters removed at both edges.
pub open spec fn trim(s: Seq<char>) -> Seq<char> {
    trim_end(trim_start(s))
}

/// Lines joined by single spaces.
pub open spec fn join_spaces(ls: Seq<Seq<char>>) -> Seq<char>
    decreases ls.len(),
{
    if ls.len() == 0 {
        Seq::empty()
    } else if ls.len() == 1 {
        ls[0]
    } else {
        ls[0] + seq![' '] + join_spaces(ls.drop_first())
    }
}

/// Non-breaking spaces replaced by plain spaces.
pub open spec fn replace_nbsp(s: Seq<char>) -> Seq<char> {
    s.map_values(|c: char| if c == '\u{00A0}' { ' ' } else { c })
}

/// Double spaces collapsed once, scanning left to right.
pub open spec fn collapse_double_spaces(s: Seq<char>) -> Seq<char>
    decreases s.len(),
{
    if s.len() >= 2 && s[0] == ' ' && s[1] == ' ' {
        seq![' '] + collapse_double_spaces(s.subrange(2, s.len() as int))
    } else if s.len() > 0 {
        seq![s[0]] + collapse_double_spaces(s.drop_first())
    } else {
        Seq::empty()
    }
}

/// The trimmed non-empty lines of a text.
pub open spec fn kept_lines(s: Seq<char>) -> Seq<Seq<char>> {
    split_lines(s).map_values(|l: Seq<char>| trim(l)).filter(|l: Seq<char>| l.len() > 0)
}

/// What `sanitize_text` yields: lines trimmed, empty lines dropped, the
/// rest joined by spaces, non-breaking spaces replaced and double spaces
/// collapsed once.
pub open spec fn sanitize_text_spec(s: Seq<char>) -> Seq<char> {
    collapse_double_spaces(replace_nbsp(join_spaces(kept_lines(s))))
}

/// Joining one more line appends a separating space unless it is the first.
proof fn lemma_join_snoc(ls: Seq<Seq<char>>, x: Seq<char>)
    ensures
        join_spaces(ls.push(x)) == if ls.len() == 0 {
            x
        } else {
            join_spaces(ls) + seq![' '] + x
        },
    decreases ls.len(),
{
    if ls.len() == 0 {
        assert(ls.push(x)[0] =~= x);
        assert(join_spaces(ls.push(x)) == x);
    } else if ls.len() == 1 {
        assert(ls.push(x)[0] == ls[0]);
        assert(ls.push(x).drop_first() =~= seq![x]);
        assert(join_spaces(seq![x]) == x);
    } else {
        assert(ls.push(x)[0] == ls[0]);
        assert(ls.push(x).drop_first() =~= ls.drop_first().push(x));
        lemma_join_snoc(ls.drop_first(), x);
        assert((ls[0] + seq![' ']) + (join_spaces(ls.drop_first()) + seq![' '] + x) =~= ((ls[0]
            + seq![' ']) + join_spaces(ls.drop_first())) + seq![' '] + x);
        assert(ls[0] + seq![' '] + join_spaces(ls.drop_first()) + seq![' '] + x =~= join_spaces(ls)
            + seq![' '] + x);
    }
}

/// Runtime counterpart of [`is_space_char`].
pub fn is_space_char_exec(c: char) -> (r: bool)
    ensures
        r == is_space_char(c),
{
    let u = c as u32;
    u == 0x20 || u == 0x09 || u == 0x0A || u == 0x0D || u == 0x0B || u == 0x0C || u == 0x85 || u
        == 0xA0 || u == 0x1680 || (0x2000 <= u && u <= 0x200A) || u == 0x2028 || u == 0x2029 || u
        == 0x202F || u == 0x205F || u == 0x3000
}

/// Trim a character vector at both edges.
fn trim_chars(s: &Vec<char>) -> (r: Vec<char>)
    ensures
        r@ == trim(s@),
{
    let mut lo: usize = 0;
    let n = s.len();
    proof {
        assert(s@.subrange(0, n as int) =~= s@);
    }
    while lo < n && is_space_char_exec(s[lo])
        invariant
            lo <= n,
            n == s@.len(),
            trim_start(s@) == trim_start(s@.subrange(lo as int, n as int)),
        decreases n - lo,
    {
        proof {
            let suf = s@.subrange(lo as int, n as int);
            assert(suf[0] == s@[lo as int]);
            assert(suf.drop_first() =~= s@.subrange(lo + 1, n as int));
        }
        lo = lo + 1;
    }
    proof {
        let suf = s@.subrange(lo as int, n as int);
        if lo < n {
            assert(suf[0] == s@[lo as int]);
        }
        assert(trim_start(suf) == suf);
    }
    let mut hi: usize = n;
    while hi > lo && is_space_char_exec(s[hi - 1])
        invariant
            lo <= hi <= n,
            n == s@.len(),
            trim_start(s@) == s@.subrange(lo as int, n as int),
            trim_end(s@.subrange(lo as int, n as int)) == trim_end(
                s@.subrange(lo as int, hi as int),
            ),
        decreases hi,
    {
        proof {
            let cur = s@.subrange(lo as int, hi as int);
            assert(cur.last() == s@[hi - 1]);
            assert(cur.drop_last() =~= s@.subrange(lo as int, hi - 1));
        }
        hi = hi - 1;
    }
    proof {
        let cur = s@.subrange(lo as int, hi as int);
        if hi > lo {
            assert(cur.last() == s@[hi - 1]);
        }
        assert(trim_end(cur) == cur);
    }
    let mut r: Vec<char> = Vec::new();
    let mut i: usize = lo;
    while i < hi
        invariant
            lo <= i <= hi <= n,
            n == s@.len(),
            r@ == s@.subrange(lo as int, i as int),
        decreases hi - i,
    {
        r.push(s[i]);
        proof {
            assert(r@ =~= s@.subrange(lo as int, i + 1));
        }
        i = i + 1;
    }
    proof {
        assert(r@ == s@.subrange(lo as int, hi as int));
    }
    r
}

/// Replace non-breaking spaces and collapse double spaces.
fn finish_sanitize(s: &Vec<char>) -> (r: Vec<char>)
    ensures
        r@ == collapse_double_spaces(replace_nbsp(s@)),
{
    let n = s.len();
    let mut rep: Vec<char> = Vec::new();
    let mut i: usize = 0;
    while i < n
        invariant
            i <= n,
            n == s@.len(),
            rep@ == replace_nbsp(s@.subrange(0, i as int)),
        decreases n - i,
    {
        let c = s[i];
        if c == '\u{00A0}' {
            rep.push(' ');
        } else {
            rep.push(c);
        }
        proof {
            assert(rep@ =~= replace_nbsp(s@.subrange(0, i + 1)));
        }
        i = i + 1;
    }
    proof {
        assert(s@.subrange(0, n as int) =~= s@);
    }
    let ghost rv = replace_nbsp(s@);
    let m = rep.len();
    let mut out: Vec<char> = Vec::new();
    let mut j: usize = 0;
    proof {
        assert(rv.subrange(0, m as int) =~= rv);
    }
    while j < m
        invariant
            j <= m,
            m == rep@.len(),
            rep@ == rv,
            collapse_double_spaces(rv) == out@ + collapse_double_spaces(
                rv.subrange(j as int, m as int),
            ),
        decreases m - j,
    {
        let ghost suf = rv.subrange(j as int, m as int);
        if j + 1 < m && rep[j] == ' ' && rep[j + 1] == ' ' {
            out.push(' ');
            proof {
                assert(suf[0] == rv[j as int] && suf[1] == rv[j + 1]);
                assert(suf.subrange(2, suf.len() as int) =~= rv.subrange(j + 2, m as int));
                assert(collapse_double_spaces(suf) == seq![' '] + collapse_double_spaces(
                    rv.subrange(j + 2, m as int),
                ));
            }
            j = j + 2;
        } else {
            out.push(rep[j]);
            proof {
                assert(suf[0] == rv[j as int]);
                if suf.len() >= 2 {
                    assert(suf[1] == rv[j + 1]);
                }
                assert(suf.drop_first() =~= rv.subrange(j + 1, m as int));
                assert(collapse_double_spaces(suf) == seq![rv[j as int]]
                    + collapse_double_spaces(rv.subrange(j + 1, m as int)));
            }
            j = j + 1;
        }
    }
    proof {
        assert(rv.subrange(m as int, m as int) =~= Seq::<char>::empty());
    }
    out
}

/// Sanitize text: trim every line, drop the empty ones, join the rest with
/// single spaces, replace non-breaking spaces and collapse double spaces.
pub fn sanitize_text(text: &str) -> (r: String)
    ensures
        r@ == sanitize_text_spec(text@),
{
    broadcast use vstd::seq_lib::group_filter_ensures;

    let cs = str_to_chars(text);
    let n = cs.len();
    let ghost lspec = |l: Seq<char>| trim(l);
    let ghost fspec = |l: Seq<char>| l.len() > 0;
    let mut kept: Vec<Vec<char>> = Vec::new();
    let mut pos: usize = 0;
    proof {
        assert(cs@.subrange(0, n as int) =~= cs@);
        assert(kept@.map_values(|v: Vec<char>| v@) =~= Seq::<Seq<char>>::empty());
        assert(Seq::<Seq<char>>::empty() + kept_lines(cs@) =~= kept_lines(cs@));
    }
    while pos < n
        invariant
            pos <= n,
            n == cs@.len(),
            cs@ == text@,
            lspec == (|l: Seq<char>| trim(l)),
            fspec == (|l: Seq<char>| l.len() > 0),
            kept_lines(text@) == kept@.map_values(|v: Vec<char>| v@) + split_lines(
                cs@.subrange(pos as int, n as int),
            ).map_values(lspec).filter(fspec),
        decreases n - pos,
    {
        let ghost suf = cs@.subrange(pos as int, n as int);
        // Find the end of the current line.
        let mut e: usize = pos;
        while e < n && cs[e] != '\n'
            invariant
                pos <= e <= n,
                n == cs@.len(),
                find_char(cs@.subrange(pos as int, n as int), '\n') == (e - pos) + find_char(
                    cs@.subrange(e as int, n as int),
                    '\n',
                ),
                forall|w: int| pos <= w < e ==> cs@[w] != '\n',
            decreases n - e,
        {
            proof {
                let se = cs@.subrange(e as int, n as int);
                assert(se[0] == cs@[e as int]);
                assert(se.drop_first() =~= cs@.subrange(e + 1, n as int));
            }
            e = e + 1;
        }
        proof {
            let se = cs@.subrange(e as int, n as int);
            if e < n {
                assert(se[0] == cs@[e as int]);
                assert(find_char(se, '\n') == 0);
            } else {
                assert(se.len() == 0);
                assert(find_char(se, '\n') == 0);
            }
            assert(find_char(suf, '\n') == e - pos);
        }
        // The raw line, with a carriage return before the newline stripped.
        let stop = if e < n && e > pos && cs[e - 1] == '\r' {
            e - 1
        } else {
            e
        };
        let mut line: Vec<char> = Vec::new();
        let mut i: usize = pos;
        while i < stop
            invariant
                pos <= i <= stop <= n,
                n == cs@.len(),
                line@ == cs@.subrange(pos as int, i as int),
            decreases stop - i,
        {
            line.push(cs[i]);
            proof {
                assert(line@ =~= cs@.subrange(pos as int, i + 1));
            }
            i = i + 1;
        }
        let ghost spec_line = if (e as int) < suf.len() + pos {
            let raw = suf.subrange(0, e - pos);
            if raw.len() > 0 && raw.last() == '\r' {
                raw.drop_last()
            } else {
                raw
            }
        } else {
            suf
        };
        proof {
            let raw = suf.subrange(0, e - pos);
            assert(raw =~= cs@.subrange(pos as int, e as int));
            if e < n {
                if raw.len() > 0 && raw.last() == '\r' {
                    assert(raw.last() == cs@[e - 1]);
                    assert(raw.drop_last() =~= cs@.subrange(pos as int, e - 1));
                    assert(line@ == raw.drop_last());
                } else {
                    assert(line@ =~= raw);
                }
            } else {
                assert(stop == e);
                assert(line@ =~= suf);
            }
            assert(line@ == spec_line);
        }
        let trimmed = trim_chars(&line);
        let ghost kept_before = kept@.map_values(|v: Vec<char>| v@);
        if trimmed.len() > 0 {
            kept.push(trimmed);
        }
        let ghost old_pos = pos as int;
        if e < n {
            pos = e + 1;
        } else {
            pos = n;
        }
        proof {
            let rest = cs@.subrange(pos as int, n as int);
            if e < n {
                assert(suf.subrange((e - old_pos) + 1, suf.len() as int) =~= rest);
                assert(split_lines(suf) == seq![spec_line] + split_lines(rest));
            } else {
                assert(suf.len() > 0);
                assert(split_lines(suf) == seq![spec_line]);
                assert(rest =~= Seq::<char>::empty());
                assert(split_lines(suf) =~= seq![spec_line] + split_lines(rest));
            }
            reveal_with_fuel(Seq::filter, 2);
            let one = seq![spec_line];
            assert((one + split_lines(rest)).map_values(lspec) =~= one.map_values(lspec)
                + split_lines(rest).map_values(lspec));
            Seq::filter_distributes_over_add(
                one.map_values(lspec),
                split_lines(rest).map_values(lspec),
                fspec,
            );
            assert(one.map_values(lspec) =~= seq![trim(spec_line)]);
            assert(seq![trim(spec_line)].drop_last() =~= Seq::<Seq<char>>::empty());
            assert(seq![trim(spec_line)].filter(fspec) == if fspec(trim(spec_line)) {
                Seq::<Seq<char>>::empty().push(trim(spec_line))
            } else {
                Seq::<Seq<char>>::empty().filter(fspec)
            });
            assert(Seq::<Seq<char>>::empty().filter(fspec) =~= Seq::<Seq<char>>::empty());
            assert(trimmed@ == trim(spec_line));
            if trimmed@.len() > 0 {
                assert(kept@.map_values(|v: Vec<char>| v@) =~= kept_before.push(trim(spec_line)));
                assert(seq![trim(spec_line)].filter(fspec) =~= seq![trim(spec_line)]);
                assert(kept_before + (seq![trim(spec_line)] + split_lines(rest).map_values(
                    lspec,
                ).filter(fspec)) =~= kept_before.push(trim(spec_line)) + split_lines(
                    rest,
                ).map_values(lspec).filter(fspec));
            } else {
                assert(seq![trim(spec_line)].filter(fspec) =~= Seq::<Seq<char>>::empty());
                assert(kept_before + (Seq::<Seq<char>>::empty() + split_lines(rest).map_values(
                    lspec,
                ).filter(fspec)) =~= kept_before + split_lines(rest).map_values(lspec).filter(
                    fspec,
                ));
            }
        }
    }
    proof {
        assert(cs@.subrange(n as int, n as int) =~= Seq::<char>::empty());
        assert(split_lines(Seq::<char>::empty()) =~= Seq::<Seq<char>>::empty());
        assert(Seq::<Seq<char>>::empty().map_values(lspec) =~= Seq::<Seq<char>>::empty());
        assert(Seq::<Seq<char>>::empty().filter(fspec) =~= Seq::<Seq<char>>::empty());
        assert(kept_lines(text@) =~= kept@.map_values(|v: Vec<char>| v@));
    }
    // Join the kept lines with single spaces.
    let ghost kv = kept@.map_values(|v: Vec<char>| v@);
    let m = kept.len();
    let mut joined: Vec<char> = Vec::new();
    let mut j: usize = 0;
    proof {
        assert(kv.subrange(0, 0) =~= Seq::<Seq<char>>::empty());
    }
    while j < m
        invariant
            j <= m,
            m == kept@.len(),
            kv == kept@.map_values(|v: Vec<char>| v@),
            joined@ == join_spaces(kv.subrange(0, j as int)),
        decreases m - j,
    {
        if j > 0 {
            joined.push(' ');
        }
        let cur_len = kept[j].len();
        let ghost mark = joined@;
        let mut i: usize = 0;
        while i < cur_len
            invariant
                i <= cur_len,
                j < m,
                m == kept@.len(),
                cur_len == kept@[j as int]@.len(),
                joined@ == mark + kept@[j as int]@.subrange(0, i as int),
            decreases cur_len - i,
        {
            let c = kept[j][i];
            joined.push(c);
            proof {
                assert(joined@ =~= mark + kept@[j as int]@.subrange(0, i + 1));
            }
            i = i + 1;
        }
        proof {
            let pre = kv.subrange(0, j as int);
            let pre1 = kv.subrange(0, j + 1);
            assert(pre1 =~= pre.push(kv[j as int]));
            lemma_join_snoc(pre, kv[j as int]);
            assert(kept@[j as int]@.subrange(0, cur_len as int) =~= kv[j as int]);
            if j == 0 {
                assert(joined@ =~= join_spaces(pre1));
            } else {
                assert(joined@ =~= join_spaces(pre) + seq![' '] + kv[j as int]);
            }
        }
        j = j + 1;
    }
    proof {
        assert(kv.subrange(0, m as int) =~= kv);
    }
    let out = finish_sanitize(&joined);
    chars_to_string(out)
}

} // verus!

verus! {

/// The character of one decimal digit.
pub open spec fn digit_char(d: nat) -> char {
    if d == 0 {
        '0'
    } else if d == 1 {
        '1'
    } else if d == 2 {
        '2'
    } else if d == 3 {
        '3'
    } else if d == 4 {
        '4'
    } else if d == 5 {
        '5'
    } else if d == 6 {
        '6'
    } else if d == 7 {
        '7'
    } else if d == 8 {
        '8'
    } else {
        '9'
    }
}

/// The decimal rendering of a number, most significant digit first.
pub open spec fn dec_digits(n: nat) -> Seq<char>
    decreases n,
{
    if n < 10 {
        seq![digit_char(n)]
    } else {
        dec_digits(n / 10) + seq![digit_char(n % 10)]
    }
}

/// Render a number in decimal.
pub fn u64_to_string(n: u64) -> (r: String)
    ensures
        r@ == dec_digits(n as nat),
{
    let mut digits: Vec<char> = Vec::new();
    let mut m = n;
    // Digits are produced least significant first.
    while m >= 10
        invariant
            dec_digits(n as nat) == dec_digits(m as nat) + digits@.reverse(),
        decreases m,
    {
        let d = m % 10;
        let c: char = if d == 0 {
            '0'
        } else if d == 1 {
            '1'
        } else if d == 2 {
            '2'
        } else if d == 3 {
            '3'
        } else if d == 4 {
            '4'
        } else if d == 5 {
            '5'
        } else if d == 6 {
            '6'
        } else if d == 7 {
            '7'
        } else if d == 8 {
            '8'
        } else {
            '9'
        };
        proof {
            assert(c == digit_char((m % 10) as nat));
            assert(dec_digits(m as nat) == dec_digits((m / 10) as nat) + seq![digit_char(
                (m % 10) as nat,
            )]);
            assert(digits@.push(c).reverse() =~= seq![c] + digits@.reverse());
            assert(dec_digits((m / 10) as nat) + (seq![c] + digits@.reverse())
                =~= (dec_digits((m / 10) as nat) + seq![c]) + digits@.reverse());
        }
        digits.push(c);
        m = m / 10;
    }
    let last: char = if m == 0 {
        '0'
    } else if m == 1 {
        '1'
    } else if m == 2 {
        '2'
    } else if m == 3 {
        '3'
    } else if m == 4 {
        '4'
    } else if m == 5 {
        '5'
    } else if m == 6 {
        '6'
    } else if m == 7 {
        '7'
    } else if m == 8 {
        '8'
    } else {
        '9'
    };
    proof {
        assert(last == digit_char(m as nat));
        assert(dec_digits(m as nat) == seq![digit_char(m as nat)]);
    }
    let mut out: Vec<char> = Vec::new();
    out.push(last);
    let k = digits.len();
    let mut i: usize = 0;
    while i < k
        invariant
            i <= k,
            k == digits@.len(),
            out@ == seq![digit_char(m as nat)] + digits@.reverse().subrange(0, i as int),
        decreases k - i,
    {
        let c = digits[k - 1 - i];
        proof {
            assert(digits@.reverse()[i as int] == digits@[k - 1 - i]);
        }
        out.push(c);
        proof {
            assert(out@ =~= seq![digit_char(m as nat)] + digits@.reverse().subrange(0, i + 1));
        }
        i = i + 1;
    }
    proof {
        assert(digits@.reverse().subrange(0, k as int) =~= digits@.reverse());
        assert(out@ == dec_digits(m as nat) + digits@.reverse());
    }
    chars_to_string(out)
}

} // verus!

verus! {

/// Does this text hold anything but white-space?
pub fn sanitize_probe(text: &str) -> (r: bool)
    ensures
        r == (trim(text@).len() > 0),
{
    let cs = str_to_chars(text);
    let t = trim_chars(&cs);
    t.len() > 0
}

} // verus!
