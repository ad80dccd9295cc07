//! The textual form of problem instances and results.
//!
//! Numbers are unsigned decimals; a vehicle's result line is its ride
//! count followed by the committed ride identities in commit order, all
//! space-separated; the full result is one such line per vehicle in
//! creation order, joined by newlines.  Serialising and re-parsing a
//! result reproduces it exactly.

use vstd::prelude::*;

verus! {

/// `b` is an ASCII decimal digit.
pub open spec fn is_digit(b: u8) -> bool {
    48 <= b <= 57
}

/// Every byte of `s` is a decimal digit.
pub open spec fn all_digits(s: Seq<u8>) -> bool {
    forall|i: int| 0 <= i < s.len() ==> is_digit(#[trigger] s[i])
}

/// The decimal representation of `n`, most significant digit first, with
/// no leading zeroes (a single `0` for zero).
pub open spec fn dec_rep(n: nat) -> Seq<u8>
    decreases n,
{
    if n < 10 {
        seq![(48 + n) as u8]
    } else {
        dec_rep(n / 10) + seq![(48 + n % 10) as u8]
    }
}

/// The value of a string of digits, most significant first.
pub open spec fn digits_val(s: Seq<u8>) -> int
    decreases s.len(),
{
    if s.len() == 0 {
        0
    } else {
        digits_val(s.drop_last()) * 10 + (s.last() - 48)
    }
}

/// The decimal representation is a non-empty digit string whose value is
/// the number it was made from.
pub proof fn lemma_dec_rep_wf(n: nat)
    ensures
        dec_rep(n).len() >= 1,
        all_digits(dec_rep(n)),
        digits_val(dec_rep(n)) == n,
    decreases n,
{
    if n < 10 {
        assert(dec_rep(n) =~= seq![(48 + n) as u8]);
        assert(dec_rep(n).drop_last() =~= Seq::<u8>::empty());
        assert(digits_val(Seq::<u8>::empty()) == 0);
        assert(dec_rep(n).last() == (48 + n) as u8);
        assert((48 + n) as u8 == 48 + n);
        assert(digits_val(dec_rep(n)) == n);
    } else {
        lemma_dec_rep_wf(n / 10);
        let d = (48 + n % 10) as u8;
        assert(dec_rep(n) == dec_rep(n / 10) + seq![d]);
        assert(dec_rep(n).drop_last() =~= dec_rep(n / 10));
        assert(dec_rep(n).last() == d);
        assert(n / 10 * 10 + n % 10 == n) by (nonlinear_arith);
        assert forall|i: int| 0 <= i < dec_rep(n).len() implies is_digit(#[trigger] dec_rep(n)[i]) by {
            if i < dec_rep(n / 10).len() {
                assert(dec_rep(n)[i] == dec_rep(n / 10)[i]);
            } else {
                assert(dec_rep(n)[i] == d);
            }
        }
        assert(digits_val(dec_rep(n)) == n);
    }
}

/// The first index at or after `i` that does not hold a digit (the
/// string's length when the digits run to its end).
pub open spec fn scan_digits(s: Seq<u8>, i: int) -> int
    decreases s.len() - i when 0 <= i <= s.len()
{
    if 0 <= i && i < s.len() && is_digit(s[i]) {
        scan_digits(s, i + 1)
    } else {
        i
    }
}

/// `scan_digits` lands past a run of digits, on a non-digit or the end.
pub proof fn lemma_scan_props(s: Seq<u8>, i: int)
    requires
        0 <= i <= s.len(),
    ensures
        i <= scan_digits(s, i) <= s.len(),
        forall|m: int| i <= m < scan_digits(s, i) ==> is_digit(#[trigger] s[m]),
        scan_digits(s, i) == s.len() || !is_digit(s[scan_digits(s, i)]),
    decreases s.len() - i,
{
    if i < s.len() && is_digit(s[i]) {
        lemma_scan_props(s, i + 1);
    }
}

/// A run of digits ending at a boundary is exactly what `scan_digits`
/// finds.
pub proof fn lemma_scan_run(s: Seq<u8>, i: int, j: int)
    requires
        0 <= i <= j <= s.len(),
        forall|m: int| i <= m < j ==> is_digit(#[trigger] s[m]),
        j == s.len() || !is_digit(s[j]),
    ensures
        scan_digits(s, i) == j,
    decreases j - i,
{
    if i < j {
        lemma_scan_run(s, i + 1, j);
    }
}

/// A digit string's value is non-negative.
pub proof fn lemma_val_nonneg(s: Seq<u8>)
    requires
        all_digits(s),
    ensures
        digits_val(s) >= 0,
    decreases s.len(),
{
    if s.len() > 0 {
        assert(all_digits(s.drop_last())) by {
            assert(forall|i: int|
                0 <= i < s.len() - 1 ==> #[trigger] s.drop_last()[i] == s[i]);
        }
        lemma_val_nonneg(s.drop_last());
    }
}

/// Extending a digit string by one digit multiplies its value by ten and
/// adds the digit.
pub proof fn lemma_val_push(s: Seq<u8>, d: u8)
    ensures
        digits_val(s.push(d)) == digits_val(s) * 10 + (d - 48),
{
    assert(s.push(d).drop_last() =~= s);
    assert(s.push(d).last() == d);
}

/// Within a run of digits, the value of a longer prefix is at least the
/// value of a shorter one.
pub proof fn lemma_val_prefix_le(s: Seq<u8>, i: int, j: int, k: int)
    requires
        0 <= i <= j <= k <= s.len(),
        forall|m: int| i <= m < k ==> is_digit(#[trigger] s[m]),
    ensures
        digits_val(s.subrange(i, j)) <= digits_val(s.subrange(i, k)),
    decreases k - j,
{
    if j < k {
        assert(s.subrange(i, j + 1) =~= s.subrange(i, j).push(s[j]));
        lemma_val_push(s.subrange(i, j), s[j]);
        assert(all_digits(s.subrange(i, j))) by {
            assert(forall|m: int|
                0 <= m < j - i ==> #[trigger] s.subrange(i, j)[m] == s[i + m]);
        }
        lemma_val_nonneg(s.subrange(i, j));
        lemma_val_prefix_le(s, i, j + 1, k);
    }
}

/// A decimal number read at `i`: `Some((value, end))` where the digit
/// run `[i, end)` is non-empty and its value fits a `u64`, else `None`.
pub open spec fn parse_num(s: Seq<u8>, i: int) -> Option<(int, int)> {
    let j = scan_digits(s, i);
    if j > i && digits_val(s.subrange(i, j)) <= u64::MAX {
        Some((digits_val(s.subrange(i, j)), j))
    } else {
        None
    }
}

/// Writes `n` in decimal.
pub fn u64_to_dec(n: u64) -> (v: Vec<u8>)
    ensures
        v@ == dec_rep(n as nat),
    decreases n,
{
    if n < 10 {
        let mut v: Vec<u8> = Vec::new();
        v.push((48 + n) as u8);
        proof {
            assert(v@ =~= dec_rep(n as nat));
        }
        v
    } else {
        let mut v = u64_to_dec(n / 10);
        v.push((48 + n % 10) as u8);
        proof {
            assert(v@ =~= dec_rep(n as nat));
        }
        v
    }
}

/// Reads the decimal number starting at `from`: the value and the index
/// one past its digits, or `None` when no digit stands at `from` or the
/// run's value exceeds `u64`.
pub fn parse_u64_at(bs: &Vec<u8>, from: usize) -> (res: Option<(u64, usize)>)
    requires
        from <= bs@.len(),
    ensures
        res is Some <==> parse_num(bs@, from as int) is Some,
        res matches Some((v, j)) ==> parse_num(bs@, from as int) == Some((v as int, j as int))
            && from < j <= bs@.len(),
{
    proof {
        lemma_scan_props(bs@, from as int);
    }
    let ghost jend = scan_digits(bs@, from as int);
    let mut j = from;
    let mut acc: u64 = 0;
    proof {
        assert(bs@.subrange(from as int, from as int) =~= Seq::<u8>::empty());
    }
    while j < bs.len() && 48 <= bs[j] && bs[j] <= 57
        invariant
            from <= j <= bs@.len(),
            j <= jend <= bs@.len(),
            jend == scan_digits(bs@, from as int),
            scan_digits(bs@, j as int) == jend,
            forall|m: int| from <= m < jend ==> is_digit(#[trigger] bs@[m]),
            acc == digits_val(bs@.subrange(from as int, j as int)),
        decreases bs@.len() - j,
    {
        let d = bs[j] - 48;
        proof {
            lemma_scan_props(bs@, j as int);
            assert(is_digit(bs@[j as int]));
            assert(j < jend);
            lemma_val_push(bs@.subrange(from as int, j as int), bs@[j as int]);
            assert(bs@.subrange(from as int, j as int + 1) =~= bs@.subrange(
                from as int,
                j as int,
            ).push(bs@[j as int]));
        }
        if acc > (u64::MAX - d as u64) / 10 {
            // The run's value has outgrown the machine word; the whole
            // run is then certainly too large.
            proof {
                assert(acc * 10 + d > u64::MAX) by (nonlinear_arith)
                    requires
                        acc > (u64::MAX - d as u64) / 10,
                        0 <= d <= 9,
                ;
                lemma_val_prefix_le(bs@, from as int, j as int + 1, jend);
                assert(digits_val(bs@.subrange(from as int, jend)) > u64::MAX);
            }
            return None;
        }
        proof {
            assert(acc * 10 + d <= u64::MAX) by (nonlinear_arith)
                requires
                    acc <= (u64::MAX - d as u64) / 10,
                    0 <= d <= 9,
            ;
            assert(j < jend);
        }
        acc = acc * 10 + d as u64;
        j += 1;
    }
    proof {
        assert(scan_digits(bs@, j as int) == j);
        assert(j == jend);
    }
    if j == from {
        None
    } else {
        Some((acc, j))
    }
}

/// The serialized tail of a result line: one space-prefixed decimal per
/// committed ride identity, in commit order.
pub open spec fn hist_tail_rep(ids: Seq<u64>) -> Seq<u8>
    decreases ids.len(),
{
    if ids.len() == 0 {
        Seq::empty()
    } else {
        seq![32u8] + dec_rep(ids.first() as nat) + hist_tail_rep(ids.drop_first())
    }
}

/// A vehicle's result line: its ride count, then its ride identities.
pub open spec fn hist_line_rep(ids: Seq<u64>) -> Seq<u8> {
    dec_rep(ids.len() as nat) + hist_tail_rep(ids)
}

/// Appending one identity appends one space-prefixed decimal.
pub proof fn lemma_tail_rep_push(ids: Seq<u64>, e: u64)
    ensures
        hist_tail_rep(ids.push(e)) == hist_tail_rep(ids) + seq![32u8] + dec_rep(e as nat),
    decreases ids.len(),
{
    if ids.len() == 0 {
        assert(ids.push(e).drop_first() =~= Seq::<u64>::empty());
        assert(ids.push(e).first() == e);
        assert(hist_tail_rep(Seq::<u64>::empty()) == Seq::<u8>::empty());
        assert(hist_tail_rep(ids.push(e)) == seq![32u8] + dec_rep(e as nat)
            + hist_tail_rep(Seq::<u64>::empty()));
        assert(hist_tail_rep(ids.push(e)) =~= hist_tail_rep(ids) + seq![32u8] + dec_rep(e as nat));
    } else {
        assert(ids.push(e).drop_first() =~= ids.drop_first().push(e));
        assert(ids.push(e).first() == ids.first());
        lemma_tail_rep_push(ids.drop_first(), e);
        assert(ids.push(e).len() != 0);
        assert(hist_tail_rep(ids.push(e)) == seq![32u8] + dec_rep(ids.push(e).first() as nat)
            + hist_tail_rep(ids.push(e).drop_first()));
        assert(hist_tail_rep(ids.push(e).drop_first()) == hist_tail_rep(ids.drop_first())
            + seq![32u8] + dec_rep(e as nat));
        assert(hist_tail_rep(ids.push(e)) =~= hist_tail_rep(ids) + seq![32u8] + dec_rep(e as nat));
    }
}

/// Writes the result line for the history `ids`.
pub fn serialize_history(ids: &Vec<u64>) -> (v: Vec<u8>)
    ensures
        v@ == hist_line_rep(ids@),
{
    let count = ids.len() as u64;
    let mut v = u64_to_dec(count);
    proof {
        assert(ids@.take(0) =~= Seq::<u64>::empty());
        assert(hist_tail_rep(ids@.take(0)) =~= Seq::<u8>::empty());
        assert(v@ =~= dec_rep(ids@.len() as nat) + hist_tail_rep(ids@.take(0)));
    }
    let mut k: usize = 0;
    while k < ids.len()
        invariant
            k <= ids@.len(),
            v@ == dec_rep(ids@.len() as nat) + hist_tail_rep(ids@.take(k as int)),
        decreases ids@.len() - k,
    {
        v.push(32u8);
        let mut d = u64_to_dec(ids[k]);
        v.append(&mut d);
        proof {
            lemma_tail_rep_push(ids@.take(k as int), ids@[k as int]);
            assert(ids@.take(k as int + 1) =~= ids@.take(k as int).push(ids@[k as int]));
            assert(v@ =~= dec_rep(ids@.len() as nat) + hist_tail_rep(ids@.take(k as int + 1)));
        }
        k += 1;
    }
    proof {
        assert(ids@.take(ids@.len() as int) =~= ids@);
    }
    v
}

/// `count` space-prefixed decimal numbers read from `i`: the values and
/// the index one past the last digit, or `None` where the shape breaks.
pub open spec fn parse_ids(s: Seq<u8>, i: int, count: nat) -> Option<(Seq<u64>, int)>
    decreases count,
{
    if count == 0 {
        Some((Seq::empty(), i))
    } else if 0 <= i && i < s.len() && s[i] == 32 {
        match parse_num(s, i + 1) {
            Some((val, j)) => match parse_ids(s, j, (count - 1) as nat) {
                Some((rest, end)) => Some((seq![val as u64] + rest, end)),
                None => None,
            },
            None => None,
        }
    } else {
        None
    }
}

/// A whole result line read from `i`: its count, then exactly that many
/// identities.  `Some((identities, end))` or `None`.
pub open spec fn parse_hist(s: Seq<u8>, i: int) -> Option<(Seq<u64>, int)> {
    match parse_num(s, i) {
        Some((count, j)) => parse_ids(s, j, count as nat),
        None => None,
    }
}

/// A successfully read number ends after where it began, within the
/// string, with a `u64` value.
pub proof fn lemma_parse_num_end(s: Seq<u8>, i: int)
    requires
        0 <= i <= s.len(),
    ensures
        parse_num(s, i) matches Some((v, j)) ==> i < j <= s.len() && 0 <= v <= u64::MAX,
    decreases s.len() - i,
{
    lemma_scan_props(s, i);
    let j = scan_digits(s, i);
    if j > i {
        assert(all_digits(s.subrange(i, j))) by {
            assert(forall|m: int|
                0 <= m < j - i ==> #[trigger] s.subrange(i, j)[m] == s[i + m]);
        }
        lemma_val_nonneg(s.subrange(i, j));
    }
}

/// Successfully read identities end no earlier than they began and
/// within the string, and their number is the count asked for.
pub proof fn lemma_parse_ids_end(s: Seq<u8>, i: int, count: nat)
    requires
        0 <= i <= s.len(),
    ensures
        parse_ids(s, i, count) matches Some((ids, end)) ==> i <= end <= s.len() && ids.len()
            == count,
    decreases count,
{
    if count > 0 && 0 <= i && i < s.len() && s[i] == 32 {
        lemma_parse_num_end(s, i + 1);
        match parse_num(s, i + 1) {
            Some((val, j)) => {
                lemma_parse_ids_end(s, j, (count - 1) as nat);
            },
            None => {},
        }
    }
}

/// A successfully read result line ends after where it began, within the
/// string.
pub proof fn lemma_parse_hist_end(s: Seq<u8>, i: int)
    requires
        0 <= i <= s.len(),
    ensures
        parse_hist(s, i) matches Some((ids, end)) ==> i < end <= s.len(),
{
    lemma_parse_num_end(s, i);
    match parse_num(s, i) {
        Some((count, j)) => {
            lemma_parse_ids_end(s, j, count as nat);
        },
        None => {},
    }
}

/// Reads a result line starting at `from`: the ride identities and the
/// index one past the line's last digit, or `None` where the line is not
/// a count followed by exactly that many space-prefixed numbers.
pub fn parse_history_at(bs: &Vec<u8>, from: usize) -> (res: Option<(Vec<u64>, usize)>)
    requires
        from <= bs@.len(),
    ensures
        res is Some <==> parse_hist(bs@, from as int) is Some,
        res matches Some((ids, end)) ==> parse_hist(bs@, from as int) == Some(
            (ids@, end as int),
        ) && from < end <= bs@.len(),
{
    proof {
        lemma_parse_hist_end(bs@, from as int);
    }
    let first = parse_u64_at(bs, from);
    match first {
        None => None,
        Some((count, j0)) => {
            let mut ids: Vec<u64> = Vec::new();
            let mut done: u64 = 0;
            let mut cur = j0;
            proof {
                if parse_ids(bs@, cur as int, count as nat) is Some {
                    let (rest, end) = parse_ids(bs@, cur as int, count as nat).unwrap();
                    assert(ids@ + rest =~= rest);
                }
            }
            while done < count
                invariant
                    done <= count,
                    cur <= bs@.len(),
                    from < cur,
                    parse_hist(bs@, from as int) == (match parse_ids(
                        bs@,
                        cur as int,
                        (count - done) as nat,
                    ) {
                        Some((rest, end)) => Some((ids@ + rest, end)),
                        None => None::<(Seq<u64>, int)>,
                    }),
                decreases count - done,
            {
                if cur >= bs.len() {
                    return None;
                }
                if bs[cur] != 32 {
                    return None;
                }
                let next = parse_u64_at(bs, cur + 1);
                match next {
                    None => {
                        return None;
                    },
                    Some((val, j)) => {
                        let ghost prev_ids = ids@;
                        ids.push(val);
                        proof {
                            let rem = (count - done) as nat;
                            assert(parse_ids(bs@, cur as int, rem) == (match parse_ids(
                                bs@,
                                j as int,
                                (rem - 1) as nat,
                            ) {
                                Some((rest, end)) => Some((seq![val as u64] + rest, end)),
                                None => None::<(Seq<u64>, int)>,
                            }));
                            if parse_ids(bs@, j as int, (rem - 1) as nat) is Some {
                                let (rest, end) = parse_ids(bs@, j as int, (rem - 1) as nat).unwrap();
                                assert(prev_ids + (seq![val as u64] + rest) =~= ids@ + rest);
                            }
                        }
                        cur = j;
                        done += 1;
                    },
                }
            }
            proof {
                assert(parse_ids(bs@, cur as int, 0) == Some((Seq::<u64>::empty(), cur as int)));
                assert(ids@ + Seq::<u64>::empty() =~= ids@);
            }
            Some((ids, cur))
        },
    }
}

/// An input line of exactly six space-separated decimal numbers
/// spanning the whole string: their values, or `None` where the line is
/// not of that shape.
pub open spec fn spec_parse_row(s: Seq<u8>) -> Option<Seq<u64>> {
    match parse_num(s, 0) {
        Some((v, j)) => match parse_ids(s, j, 5) {
            Some((vs, end)) => if end == s.len() {
                Some(seq![v as u64] + vs)
            } else {
                None
            },
            None => None,
        },
        None => None,
    }
}

/// Reads a line of exactly six space-separated decimal numbers, spanning
/// the whole string: `Some` of the six values, or `None` where a field
/// is missing, malformed, out of machine range, or followed by trailing
/// text.
pub fn parse_row(bs: &Vec<u8>) -> (res: Option<(u64, u64, u64, u64, u64, u64)>)
    ensures
        res is Some <==> spec_parse_row(bs@) is Some,
        res matches Some((a, b, x, y, s, f)) ==> spec_parse_row(bs@) == Some(
            seq![a, b, x, y, s, f],
        ),
{
    let first = parse_u64_at(bs, 0);
    match first {
        None => None,
        Some((v0, j0)) => {
            let mut acc: Vec<u64> = Vec::new();
            let mut done: u64 = 0;
            let mut cur = j0;
            proof {
                if parse_ids(bs@, cur as int, 5) is Some {
                    let (rest, end) = parse_ids(bs@, cur as int, 5).unwrap();
                    assert(acc@ + rest =~= rest);
                }
            }
            while done < 5
                invariant
                    done <= 5,
                    cur <= bs@.len(),
                    acc@.len() == done,
                    parse_num(bs@, 0) == Some((v0 as int, j0 as int)),
                    (match parse_ids(bs@, cur as int, (5 - done) as nat) {
                        Some((rest, end)) => parse_ids(bs@, j0 as int, 5) == Some(
                            (acc@ + rest, end),
                        ),
                        None => parse_ids(bs@, j0 as int, 5) is None,
                    }),
                decreases 5 - done,
            {
                if cur >= bs.len() {
                    proof {
                        assert(parse_ids(bs@, cur as int, (5 - done) as nat) is None);
                    }
                    return None;
                }
                if bs[cur] != 32 {
                    proof {
                        assert(parse_ids(bs@, cur as int, (5 - done) as nat) is None);
                    }
                    return None;
                }
                let next = parse_u64_at(bs, cur + 1);
                match next {
                    None => {
                        proof {
                            assert(parse_ids(bs@, cur as int, (5 - done) as nat) is None);
                        }
                        return None;
                    },
                    Some((val, j)) => {
                        let ghost prev = acc@;
                        acc.push(val);
                        proof {
                            let rem = (5 - done) as nat;
                            assert(parse_ids(bs@, cur as int, rem) == (match parse_ids(
                                bs@,
                                j as int,
                                (rem - 1) as nat,
                            ) {
                                Some((rest, end)) => Some((seq![val] + rest, end)),
                                None => None::<(Seq<u64>, int)>,
                            }));
                            if parse_ids(bs@, j as int, (rem - 1) as nat) is Some {
                                let (rest, end) = parse_ids(bs@, j as int, (rem - 1) as nat).unwrap();
                                assert(prev + (seq![val] + rest) =~= acc@ + rest);
                            }
                        }
                        cur = j;
                        done += 1;
                    },
                }
            }
            proof {
                assert(parse_ids(bs@, cur as int, 0) == Some((Seq::<u64>::empty(), cur as int)));
                assert(acc@ + Seq::<u64>::empty() =~= acc@);
            }
            if cur != bs.len() {
                return None;
            }
            let res = (v0, acc[0], acc[1], acc[2], acc[3], acc[4]);
            proof {
                assert(seq![v0] + acc@ =~= seq![v0, acc@[0], acc@[1], acc@[2], acc@[3], acc@[4]]);
            }
            Some(res)
        },
    }
}

/// A decimal written into a larger string, followed by a non-digit or
/// the end, reads back as itself.
pub proof fn lemma_parse_num_embedded(s: Seq<u8>, i: int, n: nat)
    requires
        0 <= i,
        i + dec_rep(n).len() <= s.len(),
        s.subrange(i, i + dec_rep(n).len() as int) == dec_rep(n),
        i + dec_rep(n).len() == s.len() || !is_digit(s[i + dec_rep(n).len()]),
        n <= u64::MAX,
    ensures
        parse_num(s, i) == Some((n as int, i + dec_rep(n).len())),
{
    lemma_dec_rep_wf(n);
    let ln = dec_rep(n).len() as int;
    assert forall|m: int| i <= m < i + ln implies is_digit(#[trigger] s[m]) by {
        assert(s[m] == s.subrange(i, i + ln)[m - i]);
        assert(is_digit(dec_rep(n)[m - i]));
    }
    lemma_scan_run(s, i, i + ln);
    assert(digits_val(s.subrange(i, i + ln)) == n);
}

/// A serialized history tail written into a larger string, followed by a
/// newline or the end, reads back as the identities it was made from.
pub proof fn lemma_parse_ids_embedded(s: Seq<u8>, i: int, ids: Seq<u64>)
    requires
        0 <= i,
        i + hist_tail_rep(ids).len() <= s.len(),
        s.subrange(i, i + hist_tail_rep(ids).len() as int) == hist_tail_rep(ids),
        i + hist_tail_rep(ids).len() == s.len() || s[i + hist_tail_rep(ids).len()] == 10,
    ensures
        parse_ids(s, i, ids.len()) == Some((ids, i + hist_tail_rep(ids).len())),
    decreases ids.len(),
{
    if ids.len() == 0 {
        assert(hist_tail_rep(ids).len() == 0);
        assert(parse_ids(s, i, 0) == Some((Seq::<u64>::empty(), i)));
        assert(ids =~= Seq::<u64>::empty());
    } else {
        let first = ids.first();
        let rest = ids.drop_first();
        let tail = hist_tail_rep(ids);
        let t = tail.len() as int;
        let ln = dec_rep(first as nat).len() as int;
        let rt = hist_tail_rep(rest).len() as int;
        lemma_dec_rep_wf(first as nat);
        assert(tail == seq![32u8] + dec_rep(first as nat) + hist_tail_rep(rest));
        assert(t == 1 + ln + rt);
        assert(s[i] == tail[0]);
        assert(tail[0] == 32);
        assert(s.subrange(i + 1, i + 1 + ln) =~= dec_rep(first as nat)) by {
            assert(forall|m: int|
                0 <= m < ln ==> #[trigger] s.subrange(i + 1, i + 1 + ln)[m] == tail[1 + m]);
            assert(forall|m: int| 0 <= m < ln ==> #[trigger] tail[1 + m] == dec_rep(
                first as nat,
            )[m]);
        }
        // The byte after the number is a space (more identities follow),
        // a newline, or the end — never a digit.
        if rest.len() == 0 {
            assert(rt == 0);
            assert(i + 1 + ln == i + t);
        } else {
            assert(hist_tail_rep(rest) == seq![32u8] + dec_rep(rest.first() as nat)
                + hist_tail_rep(rest.drop_first()));
            assert(hist_tail_rep(rest)[0] == 32);
            assert(s[i + 1 + ln] == tail[1 + ln]);
            assert(tail[1 + ln] == hist_tail_rep(rest)[0]);
            assert(!is_digit(s[i + 1 + ln]));
        }
        lemma_parse_num_embedded(s, i + 1, first as nat);
        assert(s.subrange(i + 1 + ln, i + 1 + ln + rt) =~= hist_tail_rep(rest)) by {
            assert(forall|m: int|
                0 <= m < rt ==> #[trigger] s.subrange(i + 1 + ln, i + 1 + ln + rt)[m] == tail[1 + ln
                    + m]);
            assert(forall|m: int| 0 <= m < rt ==> #[trigger] tail[1 + ln + m] == hist_tail_rep(
                rest,
            )[m]);
        }
        lemma_parse_ids_embedded(s, i + 1 + ln, rest);
        assert((ids.len() - 1) as nat == rest.len());
        assert(seq![first] + rest =~= ids);
        assert(parse_ids(s, i, ids.len()) == Some((ids, i + t)));
    }
}

/// A serialized result line written into a larger string, followed by a
/// newline or the end, reads back as the identities it was made from.
pub proof fn lemma_parse_hist_embedded(s: Seq<u8>, i: int, ids: Seq<u64>)
    requires
        0 <= i,
        ids.len() <= u64::MAX,
        i + hist_line_rep(ids).len() <= s.len(),
        s.subrange(i, i + hist_line_rep(ids).len() as int) == hist_line_rep(ids),
        i + hist_line_rep(ids).len() == s.len() || s[i + hist_line_rep(ids).len()] == 10,
    ensures
        parse_hist(s, i) == Some((ids, i + hist_line_rep(ids).len())),
{
    let line = hist_line_rep(ids);
    let t = line.len() as int;
    let ln = dec_rep(ids.len() as nat).len() as int;
    let rt = hist_tail_rep(ids).len() as int;
    lemma_dec_rep_wf(ids.len() as nat);
    assert(line == dec_rep(ids.len() as nat) + hist_tail_rep(ids));
    assert(t == ln + rt);
    assert(s.subrange(i, i + ln) =~= dec_rep(ids.len() as nat)) by {
        assert(forall|m: int| 0 <= m < ln ==> #[trigger] s.subrange(i, i + ln)[m] == line[m]);
        assert(forall|m: int| 0 <= m < ln ==> #[trigger] line[m] == dec_rep(ids.len() as nat)[m]);
    }
    if ids.len() == 0 {
        assert(rt == 0);
        assert(i + ln == i + t);
    } else {
        assert(hist_tail_rep(ids) == seq![32u8] + dec_rep(ids.first() as nat) + hist_tail_rep(
            ids.drop_first(),
        ));
        assert(hist_tail_rep(ids)[0] == 32);
        assert(s[i + ln] == line[ln]);
        assert(line[ln] == hist_tail_rep(ids)[0]);
        assert(!is_digit(s[i + ln]));
    }
    lemma_parse_num_embedded(s, i, ids.len() as nat);
    assert(s.subrange(i + ln, i + ln + rt) =~= hist_tail_rep(ids)) by {
        assert(forall|m: int|
            0 <= m < rt ==> #[trigger] s.subrange(i + ln, i + ln + rt)[m] == line[ln + m]);
        assert(forall|m: int| 0 <= m < rt ==> #[trigger] line[ln + m] == hist_tail_rep(ids)[m]);
    }
    lemma_parse_ids_embedded(s, i + ln, ids);
}

/// The whole serialized result: one line per history, joined by
/// newlines.
pub open spec fn result_rep(hs: Seq<Seq<u64>>) -> Seq<u8>
    decreases hs.len(),
{
    if hs.len() == 0 {
        Seq::empty()
    } else if hs.len() == 1 {
        hist_line_rep(hs.first())
    } else {
        hist_line_rep(hs.first()) + seq![10u8] + result_rep(hs.drop_first())
    }
}

/// Appending one history appends one newline-prefixed line (or just the
/// line, to an empty result).
pub proof fn lemma_result_rep_push(hs: Seq<Seq<u64>>, h: Seq<u64>)
    ensures
        hs.len() == 0 ==> result_rep(hs.push(h)) == hist_line_rep(h),
        hs.len() > 0 ==> result_rep(hs.push(h)) == result_rep(hs) + seq![10u8] + hist_line_rep(h),
    decreases hs.len(),
{
    if hs.len() == 0 {
        assert(hs.push(h).first() == h);
    } else {
        assert(hs.push(h).drop_first() =~= hs.drop_first().push(h));
        assert(hs.push(h).first() == hs.first());
        lemma_result_rep_push(hs.drop_first(), h);
        if hs.len() == 1 {
            assert(hs.drop_first().len() == 0);
            assert(result_rep(hs.push(h)) == hist_line_rep(hs.first()) + seq![10u8]
                + result_rep(hs.drop_first().push(h)));
            assert(result_rep(hs) == hist_line_rep(hs.first()));
            assert(result_rep(hs.drop_first().push(h)) == hist_line_rep(h));
        } else {
            assert(result_rep(hs.push(h)) == hist_line_rep(hs.first()) + seq![10u8]
                + result_rep(hs.drop_first().push(h)));
            assert(result_rep(hs.push(h)) =~= result_rep(hs) + seq![10u8] + hist_line_rep(h));
        }
    }
}

/// The parsed form of a whole result text from `i` to the end: the
/// histories of its newline-separated lines, or `None` where the text is
/// not of that shape.
pub open spec fn parse_result_from(s: Seq<u8>, i: int) -> Option<Seq<Seq<u64>>>
    decreases s.len() - i when 0 <= i <= s.len()
        via parse_result_from_decreases
{
    match parse_hist(s, i) {
        Some((ids, j)) => {
            if j == s.len() {
                Some(seq![ids])
            } else if s[j] == 10 {
                match parse_result_from(s, j + 1) {
                    Some(rest) => Some(seq![ids] + rest),
                    None => None,
                }
            } else {
                None
            }
        },
        None => None,
    }
}

#[via_fn]
proof fn parse_result_from_decreases(s: Seq<u8>, i: int) {
    lemma_parse_hist_end(s, i);
}

/// A serialized result, parsed back from its whole text, is the
/// histories it was made from.
pub proof fn lemma_result_embedded(s: Seq<u8>, i: int, hs: Seq<Seq<u64>>)
    requires
        0 <= i,
        hs.len() >= 1,
        forall|m: int| 0 <= m < hs.len() ==> (#[trigger] hs[m]).len() <= u64::MAX,
        i + result_rep(hs).len() == s.len(),
        s.subrange(i, s.len() as int) == result_rep(hs),
    ensures
        parse_result_from(s, i) == Some(hs),
    decreases hs.len(),
{
    let first = hs.first();
    let rest = hs.drop_first();
    let rep = result_rep(hs);
    let t = rep.len() as int;
    let ll = hist_line_rep(first).len() as int;
    if hs.len() == 1 {
        assert(rep == hist_line_rep(first));
        lemma_parse_hist_embedded(s, i, first);
        assert(seq![first] =~= hs);
    } else {
        assert(rep == hist_line_rep(first) + seq![10u8] + result_rep(rest));
        assert(s.subrange(i, i + ll) =~= hist_line_rep(first)) by {
            assert(forall|m: int|
                0 <= m < ll ==> #[trigger] s.subrange(i, i + ll)[m] == rep[m]);
            assert(forall|m: int| 0 <= m < ll ==> #[trigger] rep[m] == hist_line_rep(first)[m]);
        }
        assert(s[i + ll] == rep[ll]);
        assert(rep[ll] == 10);
        lemma_parse_hist_embedded(s, i, first);
        assert(s.subrange(i + ll + 1, s.len() as int) =~= result_rep(rest)) by {
            assert(forall|m: int|
                0 <= m < result_rep(rest).len() ==> #[trigger] s.subrange(
                    i + ll + 1,
                    s.len() as int,
                )[m] == rep[ll + 1 + m]);
            assert(forall|m: int|
                0 <= m < result_rep(rest).len() ==> #[trigger] rep[ll + 1 + m] == result_rep(
                    rest,
                )[m]);
        }
        assert(forall|m: int| 0 <= m < rest.len() ==> (#[trigger] rest[m]).len() <= u64::MAX) by {
            assert(forall|m: int| 0 <= m < rest.len() ==> rest[m] == hs[m + 1]);
        }
        lemma_result_embedded(s, i + ll + 1, rest);
        assert(i + ll < s.len());
        assert(seq![first] + rest =~= hs);
    }
}

/// Round trip: parsing a serialized result reproduces the same ordered
/// ride-identity sequence for every vehicle.
pub proof fn lemma_result_round_trip(hs: Seq<Seq<u64>>)
    requires
        hs.len() >= 1,
        forall|m: int| 0 <= m < hs.len() ==> (#[trigger] hs[m]).len() <= u64::MAX,
    ensures
        parse_result_from(result_rep(hs), 0) == Some(hs),
{
    let rep = result_rep(hs);
    assert(rep.subrange(0, rep.len() as int) =~= rep);
    lemma_result_embedded(rep, 0, hs);
}

/// The models of a sequence of histories.
pub open spec fn hist_views(hs: Seq<Vec<u64>>) -> Seq<Seq<u64>> {
    hs.map_values(|h: Vec<u64>| h@)
}

/// Reads a whole result text back into per-vehicle ride-identity
/// sequences: one line per vehicle, joined by newlines, each line a
/// count followed by that many identities.  `None` where the text is not
/// of that shape.
pub fn parse_result(bs: &Vec<u8>) -> (res: Option<Vec<Vec<u64>>>)
    ensures
        res is Some <==> parse_result_from(bs@, 0) is Some,
        res matches Some(hs) ==> parse_result_from(bs@, 0) == Some(hist_views(hs@)),
{
    let mut acc: Vec<Vec<u64>> = Vec::new();
    let first = parse_history_at(bs, 0);
    match first {
        None => None,
        Some((ids, j0)) => {
            let mut cur = j0;
            acc.push(ids);
            proof {
                assert(hist_views(acc@) =~= seq![acc@[0]@]);
            }
            loop
                invariant
                    0 < cur <= bs@.len(),
                    acc@.len() >= 1,
                    parse_result_from(bs@, 0) == (if cur == bs@.len() {
                        Some(hist_views(acc@))
                    } else {
                        match (if bs@[cur as int] == 10 {
                            parse_result_from(bs@, cur as int + 1)
                        } else {
                            None
                        }) {
                            Some(rest) => Some(hist_views(acc@) + rest),
                            None => None::<Seq<Seq<u64>>>,
                        }
                    }),
                decreases bs@.len() - cur,
            {
                if cur == bs.len() {
                    return Some(acc);
                }
                if bs[cur] != 10 {
                    return None;
                }
                let next = parse_history_at(bs, cur + 1);
                match next {
                    None => {
                        return None;
                    },
                    Some((ids2, j)) => {
                        let ghost prev = acc@;
                        acc.push(ids2);
                        proof {
                            assert(hist_views(acc@) =~= hist_views(prev).push(acc@.last()@));
                            if j < bs@.len() && bs@[j as int] == 10 {
                                if parse_result_from(bs@, j as int + 1) is Some {
                                    let rest = parse_result_from(bs@, j as int + 1).unwrap();
                                    assert(hist_views(prev) + (seq![ids2@] + rest)
                                        =~= hist_views(acc@) + rest);
                                }
                            } else if j == bs@.len() {
                                assert(hist_views(prev) + seq![ids2@] =~= hist_views(acc@));
                            }
                        }
                        cur = j;
                    },
                }
            }
        },
    }
}

} // verus!
