//! The arithmetic of the benchmark: percentiles, report lines, and modules that
//! no cache has seen.
use crate::text::chars_of;
use crate::text::decimal;
use crate::text::decimal_text;
use crate::text::digit;
use crate::text::digit_char;
use crate::text::parse_number;
use crate::text::parse_unsigned;
use vstd::bytes::spec_u64_to_le_bytes;
use vstd::bytes::u64_to_le_bytes;
use vstd::prelude::*;
use vstd::slice::slice_to_vec;
use vstd::string::StringExecFns;

verus! {

/// Samples in order, in microseconds.
pub struct Latencies {
    pub label: &'static str,
    pub micros: Vec<u64>,
}

pub open spec fn ascending(s: Seq<u64>) -> bool {
    forall|i: int, j: int| 0 <= i < j < s.len() ==> s[i] <= s[j]
}

/// The place, counted from one, of the smallest sample at or above a percentage
/// of all of them.
pub open spec fn rank(percent: nat, count: nat) -> nat
    recommends
        count > 0,
{
    let raw = (percent * count + 99) / 100;
    if raw < 1 {
        1
    } else if raw > count {
        count
    } else {
        raw
    }
}

impl Latencies {
    pub open spec fn samples(&self) -> Seq<u64> {
        self.micros@
    }

    pub open spec fn wf(&self) -> bool {
        ascending(self.samples())
    }

    /// Sorts the samples.
    pub fn new(label: &'static str, micros: Vec<u64>) -> (out: Self)
        ensures
            out.wf(),
            out.label == label,
            out.samples().to_multiset() == micros@.to_multiset(),
    {
        let mut sorted: Vec<u64> = Vec::new();
        let mut i: usize = 0;
        assert(sorted@ =~= micros@.take(0));
        while i < micros.len()
            invariant
                i <= micros@.len(),
                ascending(sorted@),
                sorted@.to_multiset() == micros@.take(i as int).to_multiset(),
            decreases micros@.len() - i,
        {
            proof {
                let done = micros@.take(i as int);
                assert(micros@.take(i as int + 1) =~= done.push(micros@[i as int]));
                done.to_multiset_ensures();
            }
            insert_sample(&mut sorted, micros[i]);
            i += 1;
        }
        assert(micros@.take(i as int) =~= micros@);
        Latencies { label, micros: sorted }
    }

    /// How many samples there are.
    pub fn count(&self) -> (out: usize)
        ensures
            out == self.samples().len(),
    {
        self.micros.len()
    }

    /// Nearest rank: the smallest value at or above the requested rank. No
    /// interpolation, so every number is one that happened. Above a hundred the
    /// largest is meant.
    pub fn p(&self, percent: u64) -> (out: Option<u64>)
        ensures
            match out {
                Some(value) => self.samples().len() > 0 && value == self.samples()[rank(
                    percent as nat,
                    self.samples().len(),
                ) - 1],
                None => self.samples().len() == 0,
            },
    {
        let count: usize = self.micros.len();
        if count == 0 {
            return None;
        }
        assert(0 <= percent * count <= u64::MAX * u64::MAX) by (nonlinear_arith)
            requires
                0 <= percent <= u64::MAX,
                0 <= count <= u64::MAX,
        ;
        let raw: u128 = (percent as u128 * count as u128 + 99) / 100;
        let at: usize = if raw < 1 {
            1
        } else if raw > count as u128 {
            count
        } else {
            raw as usize
        };
        Some(self.micros[at - 1])
    }

    /// The longest sample, and nothing for none.
    pub fn max(&self) -> (out: u64)
        ensures
            out == if self.samples().len() == 0 {
                0
            } else {
                self.samples().last()
            },
    {
        let count: usize = self.micros.len();
        if count == 0 {
            0
        } else {
            self.micros[count - 1]
        }
    }

    /// The report line. It is printed whether or not the target was met.
    pub fn report(&self, target_ms: Option<u64>) -> (out: String)
        ensures
            out@ == report_text(self.label@, self.samples(), target_ms),
    {
        let p99 = self.p(99);
        let mut out = padded_right(self.label, 28);
        out.append(" n=");
        out.append(padded_right(decimal_text(self.micros.len() as u64).as_str(), 6).as_str());
        out.append(" p50 ");
        out.append(padded_left(millis_text(self.p(50)).as_str(), 8).as_str());
        out.append("  p99 ");
        out.append(padded_left(millis_text(p99).as_str(), 8).as_str());
        out.append("  max ");
        out.append(padded_left(millis_text(Some(self.max())).as_str(), 8).as_str());
        out.append(" ms");
        let ghost start = out@;
        match target_ms {
            Some(target) => {
                let met = match p99 {
                    Some(value) => value / 1000 < target,
                    None => false,
                };
                out.append(
                    if met {
                        "  MET (target p99 < "
                    } else {
                        "  MISSED (target p99 < "
                    },
                );
                out.append(decimal_text(target).as_str());
                out.append(" ms)");
                assert(out@ =~= start + verdict_text(self.samples(), target_ms));
            },
            None => {
                assert(out@ =~= start + verdict_text(self.samples(), target_ms));
            },
        }
        out
    }
}

/// The sample at a percentile.
pub open spec fn at_percent(samples: Seq<u64>, percent: nat) -> Option<u64> {
    if samples.len() == 0 {
        None
    } else {
        Some(samples[rank(percent, samples.len()) - 1])
    }
}

/// Milliseconds with three decimals; there is no number for no sample.
pub open spec fn millis(micros: Option<u64>) -> Seq<char> {
    match micros {
        Some(n) => decimal((n / 1000) as nat).push('.').push(digit_char((n / 100 % 10) as int)).push(
            digit_char((n / 10 % 10) as int),
        ).push(digit_char((n % 10) as int)),
        None => "NaN"@,
    }
}

fn millis_text(micros: Option<u64>) -> (out: String)
    ensures
        out@ == millis(micros),
{
    match micros {
        Some(n) => {
            let mut out = decimal_text(n / 1000);
            out.push('.');
            out.push(digit(n / 100 % 10));
            out.push(digit(n / 10 % 10));
            out.push(digit(n % 10));
            out
        },
        None => String::from_str("NaN"),
    }
}

/// So many blanks.
pub open spec fn blanks(n: int) -> Seq<char> {
    Seq::new(
        if n > 0 {
            n as nat
        } else {
            0
        },
        |i: int| ' ',
    )
}

fn padded_right(text: &str, width: usize) -> (out: String)
    ensures
        out@ == text@ + blanks(width - text@.len()),
{
    let mut size: usize = chars_of(text).len();
    let mut out = text.to_owned();
    assert(out@ =~= text@ + blanks(0));
    while size < width
        invariant
            size >= text@.len(),
            size <= width || size == text@.len(),
            out@ == text@ + blanks(size - text@.len()),
        decreases width - size,
    {
        out.push(' ');
        size += 1;
        assert(out@ =~= text@ + blanks(size - text@.len()));
    }
    assert(blanks(size - text@.len()) =~= blanks(width - text@.len()));
    out
}

fn padded_left(text: &str, width: usize) -> (out: String)
    ensures
        out@ == blanks(width - text@.len()) + text@,
{
    let mut size: usize = chars_of(text).len();
    let mut out = String::new();
    assert(out@ =~= blanks(0));
    while size < width
        invariant
            size >= text@.len(),
            size <= width || size == text@.len(),
            out@ == blanks(size - text@.len()),
        decreases width - size,
    {
        out.push(' ');
        size += 1;
        assert(out@ =~= blanks(size - text@.len()));
    }
    assert(blanks(size - text@.len()) =~= blanks(width - text@.len()));
    out.append(text);
    out
}

/// What a report says of its target.
pub open spec fn verdict_text(samples: Seq<u64>, target_ms: Option<u64>) -> Seq<char> {
    match target_ms {
        Some(target) => (if at_percent(samples, 99) matches Some(value) && value < target * 1000 {
            "  MET (target p99 < "@
        } else {
            "  MISSED (target p99 < "@
        }) + decimal(target as nat) + " ms)"@,
        None => Seq::empty(),
    }
}

pub open spec fn report_text(label: Seq<char>, samples: Seq<u64>, target_ms: Option<u64>) -> Seq<
    char,
> {
    let count = decimal(samples.len());
    let p50 = millis(at_percent(samples, 50));
    let p99 = millis(at_percent(samples, 99));
    let max = millis(
        Some(
            if samples.len() == 0 {
                0
            } else {
                samples.last()
            },
        ),
    );
    label + blanks(28 - label.len()) + " n="@ + (count + blanks(6 - count.len())) + " p50 "@ + (
    blanks(8 - p50.len()) + p50) + "  p99 "@ + (blanks(8 - p99.len()) + p99) + "  max "@ + (blanks(
        8 - max.len(),
    ) + max) + " ms"@ + verdict_text(samples, target_ms)
}

fn insert_sample(list: &mut Vec<u64>, sample: u64)
    requires
        ascending(old(list)@),
    ensures
        ascending(final(list)@),
        final(list)@.to_multiset() == old(list)@.to_multiset().insert(sample),
{
    let ghost all = list@;
    let mut at: usize = list.len();
    while at > 0 && list[at - 1] > sample
        invariant
            at <= list@.len(),
            list@ == all,
            ascending(all),
            forall|k: int| at <= k < all.len() ==> sample < #[trigger] all[k],
        decreases at,
    {
        at = at - 1;
    }
    list.insert(at, sample);
    proof {
        let after = list@;
        assert(after =~= all.insert(at as int, sample));
        after.to_multiset_ensures();
        assert(after.remove(at as int) =~= all);
        assert(after.contains(after[at as int]));
        assert(after.to_multiset() =~= after.to_multiset().remove(sample).insert(sample));
        assert forall|i: int, j: int| 0 <= i < j < after.len() implies after[i] <= after[j] by {
            if j < at {
            } else if j == at {
                assert(after[i] == all[i]);
                assert(all[i] <= all[at - 1]);
            } else if i == at {
                assert(after[j] == all[j - 1]);
            } else if i < at {
                assert(after[i] == all[i] && after[j] == all[j - 1]);
            } else {
                assert(after[i] == all[i - 1] && after[j] == all[j - 1]);
            }
        }
    }
}

/// How many samples to take: what a setting says, or the default.
pub fn samples(setting: Option<&str>, default: usize) -> (out: usize)
    ensures
        out == match setting {
            Some(text) => match parse_unsigned(text@, usize::MAX as nat) {
                Some(n) => n as usize,
                None => default,
            },
            None => default,
        },
{
    match setting {
        Some(text) => {
            let digits = chars_of(text);
            match parse_number(&digits, usize::MAX as u64) {
                Some(n) => n as usize,
                None => default,
            }
        },
        None => default,
    }
}

/// How many runs are discarded first.
pub fn warmups(count: usize) -> (out: usize)
    ensures
        out == if count < 1 {
            1
        } else if count > 200 {
            200
        } else {
            count
        },
{
    if count < 1 {
        1
    } else if count > 200 {
        200
    } else {
        count
    }
}

/// Where the interpreter guest is built, seen from a crate's directory.
pub fn interpreter_path(manifest_dir: &str) -> (out: String)
    ensures
        out@ == manifest_dir@ + "/../../guests/interpreters/js/dist/nebula_js.wasm"@,
{
    let mut out = manifest_dir.to_owned();
    out.append("/../../guests/interpreters/js/dist/nebula_js.wasm");
    out
}

/// An unsigned number in little-endian base 128: seven bits to a byte, and a
/// mark on every byte but the last.
pub open spec fn leb128(n: nat) -> Seq<u8>
    decreases n,
{
    if n < 128 {
        seq![n as u8]
    } else {
        seq![(n % 128 + 128) as u8] + leb128(n / 128)
    }
}

fn push_leb128(out: &mut Vec<u8>, n: usize)
    ensures
        final(out)@ == old(out)@ + leb128(n as nat),
{
    let ghost before = out@;
    let mut rest: usize = n;
    assert(before + leb128(n as nat) =~= out@ + leb128(rest as nat));
    while rest >= 128
        invariant
            before + leb128(n as nat) == out@ + leb128(rest as nat),
        decreases rest,
    {
        let ghost done = out@;
        let byte: u8 = (rest % 128 + 128) as u8;
        out.push(byte);
        assert(out@ + leb128((rest / 128) as nat) =~= done + leb128(rest as nat));
        rest = rest / 128;
    }
    out.push(rest as u8);
    assert(out@ =~= before + leb128(n as nat));
}

/// The name of the section that makes a module unique.
pub open spec fn section_name() -> Seq<u8> {
    seq![0x6e, 0x65, 0x62, 0x75, 0x6c, 0x61, 0x2d, 0x62, 0x65, 0x6e, 0x63, 0x68]
}

/// What the section holds: its name, and a number.
pub open spec fn section_payload(n: u64) -> Seq<u8> {
    seq![12u8] + section_name() + spec_u64_to_le_bytes(n)
}

/// A module with a custom section that carries a number nothing executes.
pub open spec fn unique(wasm: Seq<u8>, n: u64) -> Seq<u8> {
    wasm + seq![0u8] + leb128(section_payload(n).len()) + section_payload(n)
}

/// Makes `wasm` unique without changing what it does: its content hash
/// changes, which is what misses the caches.
pub fn uniquify(wasm: &[u8], n: usize) -> (out: Vec<u8>)
    ensures
        out@ == unique(wasm@, n as u64),
{
    let mut payload: Vec<u8> = vec![
        12u8, 0x6eu8, 0x65u8, 0x62u8, 0x75u8, 0x6cu8, 0x61u8, 0x2du8, 0x62u8, 0x65u8, 0x6eu8,
        0x63u8, 0x68u8,
    ];
    let mut number = u64_to_le_bytes(n as u64);
    payload.append(&mut number);
    assert(payload@ =~= section_payload(n as u64));
    let mut out = slice_to_vec(wasm);
    out.push(0);
    assert(out@ =~= wasm@ + seq![0u8]);
    push_leb128(&mut out, payload.len());
    out.append(&mut payload);
    out
}

/// What every sized module starts with: the echo handler.
pub const SIZED_START: &'static str = "(module
  (import \"nebula\" \"request_len\" (func $len (result i32)))
  (import \"nebula\" \"request_read\" (func $read (param i32 i32) (result i32)))
  (import \"nebula\" \"response_write\" (func $write (param i32 i32) (result i32)))
  (memory (export \"memory\") 1)
  (func (export \"run\")
    (local $n i32)
    (local.set $n (call $len))
    (drop (call $read (i32.const 0) (local.get $n)))
    (drop (call $write (i32.const 0) (local.get $n))))";

/// One filler function. Bodies are distinct, so that nothing folds them
/// together.
pub open spec fn filler(seed: nat, n: nat) -> Seq<char> {
    "\n  (func $f"@ + decimal(seed) + "_"@ + decimal(n)
        + " (param i32) (result i32) (i32.add (local.get 0) (i32.const "@ + decimal(n) + ")))"@
}

/// `wat` with filler functions after it until it is at least `target` long.
pub open spec fn filled(wat: Seq<char>, seed: nat, n: nat, target: nat) -> Seq<char>
    decreases (if wat.len() < target { target - wat.len() } else { 0 }),
{
    if wat.len() >= target || filler(seed, n).len() == 0 {
        wat
    } else {
        filled(wat + filler(seed, n), seed, n + 1, target)
    }
}

/// A module of roughly `target` bytes, made of filler functions. Padding with
/// data would not do: a cold start is dominated by compiling code.
pub fn sized_module(target: usize, seed: usize) -> (out: String)
    requires
        target <= usize::MAX - 4096,
    ensures
        out@ == filled(SIZED_START@, seed as nat, 0, target as nat) + "\n)"@,
{
    let mut wat = String::from_str(SIZED_START);
    let mut size: usize = chars_of(SIZED_START).len();
    let mut n: usize = 0;
    while size < target
        invariant
            target <= usize::MAX - 4096,
            size == wat@.len(),
            n <= size,
            filled(wat@, seed as nat, n as nat, target as nat) == filled(
                SIZED_START@,
                seed as nat,
                0,
                target as nat,
            ),
        decreases (if size < target { target - size } else { 0 }),
    {
        let mut one = String::from_str("\n  (func $f");
        one.append(decimal_text(seed as u64).as_str());
        one.append("_");
        one.append(decimal_text(n as u64).as_str());
        one.append(" (param i32) (result i32) (i32.add (local.get 0) (i32.const ");
        one.append(decimal_text(n as u64).as_str());
        one.append(")))");
        assert(one@ == filler(seed as nat, n as nat));
        let more: usize = chars_of(one.as_str()).len();
        proof {
            reveal_strlit("\n  (func $f");
            reveal_strlit("_");
            reveal_strlit(" (param i32) (result i32) (i32.add (local.get 0) (i32.const ");
            reveal_strlit(")))");
            lemma_u64_digits(seed as u64);
            lemma_u64_digits(n as u64);
        }
        wat.append(one.as_str());
        size += more;
        n += 1;
    }
    wat.append("\n)");
    wat
}

proof fn lemma_u64_digits(n: u64)
    ensures
        decimal(n as nat).len() <= 20,
{
    assert(vstd::arithmetic::power::pow(10, 20) == 100_000_000_000_000_000_000) by {
        reveal_with_fuel(vstd::arithmetic::power::pow, 21);
    }
    crate::text::lemma_decimal_len(n as nat, 20);
}

/// Different numbers make different modules out of one, and the module itself
/// stays in front.
pub proof fn law_unique_modules_differ(wasm: Seq<u8>, n: u64, m: u64)
    ensures
        wasm.is_prefix_of(unique(wasm, n)),
        n != m ==> unique(wasm, n) != unique(wasm, m),
{
    let a = unique(wasm, n);
    let b = unique(wasm, m);
    assert(wasm =~= a.take(wasm.len() as int));
    vstd::bytes::lemma_auto_spec_u64_to_from_le_bytes();
    if a == b {
        let start = wasm.len() + 1 + leb128(section_payload(n).len()).len() + 13;
        assert(section_payload(n).len() == section_payload(m).len());
        assert(a.skip(start as int) =~= spec_u64_to_le_bytes(n));
        assert(b.skip(start as int) =~= spec_u64_to_le_bytes(m));
    }
}

/// Nearest rank: as many samples as the percentage asks for are no larger.
pub proof fn law_nearest_rank_covers_its_share(samples: Seq<u64>, percent: nat)
    requires
        ascending(samples),
        samples.len() > 0,
        0 < percent <= 100,
    ensures
        1 <= rank(percent, samples.len()) <= samples.len(),
        100 * rank(percent, samples.len()) >= percent * samples.len(),
        forall|i: int|
            0 <= i < rank(percent, samples.len()) ==> #[trigger] samples[i] <= samples[rank(
                percent,
                samples.len(),
            ) - 1],
{
    let n = samples.len();
    assert(percent * n <= 100 * n) by (nonlinear_arith)
        requires
            percent <= 100,
    ;
}

/// The rank of a percentage is the least that covers it: one sample fewer would be
/// less than the share asked for. It is the first sample for none, and the last for
/// all and more.
pub proof fn law_the_rank_is_the_least_that_covers(percent: nat, count: nat)
    requires
        count > 0,
    ensures
        1 <= rank(percent, count) <= count,
        rank(percent, count) > 1 ==> 100 * (rank(percent, count) - 1) < percent * count,
        percent <= 100 ==> 100 * rank(percent, count) >= percent * count,
        percent >= 100 ==> rank(percent, count) == count,
        percent == 0 ==> rank(percent, count) == 1,
{
    assert(percent <= 100 ==> percent * count <= 100 * count) by (nonlinear_arith);
    assert(percent >= 100 ==> percent * count >= 100 * count) by (nonlinear_arith);
    assert(percent == 0 ==> percent * count == 0) by (nonlinear_arith);
}

/// What stands at a percentage is the sample of that rank, and nothing stands there
/// without samples.
pub proof fn law_a_percentile_is_a_sample(samples: Seq<u64>, percent: nat)
    ensures
        samples.len() == 0 ==> at_percent(samples, percent) is None,
        samples.len() > 0 ==> at_percent(samples, percent) == Some(
            samples[rank(percent, samples.len()) - 1],
        ) && samples.contains(at_percent(samples, percent)->0),
{
    if samples.len() > 0 {
        law_the_rank_is_the_least_that_covers(percent, samples.len());
    }
}

/// Milliseconds are written with the whole of them, a point, and the three digits of
/// the microseconds that are left.
pub proof fn law_milliseconds_have_three_decimals(n: u64)
    ensures
        ({
            let text = millis(Some(n));
            let whole = decimal((n / 1000) as nat);
            &&& text.len() == whole.len() + 4
            &&& text.take(whole.len() as int) == whole
            &&& text[whole.len() as int] == '.'
            &&& crate::text::decimal_value(text.skip(whole.len() as int + 1)) == n % 1000
        }),
        millis(None) == "NaN"@,
{
    let text = millis(Some(n));
    let whole = decimal((n / 1000) as nat);
    assert(text.take(whole.len() as int) =~= whole);
    let a = (n / 100 % 10) as int;
    let b = (n / 10 % 10) as int;
    let c = (n % 10) as int;
    let tail = text.skip(whole.len() as int + 1);
    assert(tail =~= Seq::empty().push(digit_char(a)).push(digit_char(b)).push(digit_char(c)));
    lemma_three_digits(n);
    lemma_three_digits_spell(a, b, c);
}

proof fn lemma_three_digits(n: u64)
    ensures
        n % 1000 == 100 * (n / 100 % 10) + 10 * (n / 10 % 10) + n % 10,
{
    let k = n / 1000;
    let r = n % 1000;
    assert(n == 1000 * k + r);
    assert(n / 100 == 10 * k + r / 100);
    assert(n / 10 == 100 * k + r / 10);
}

proof fn lemma_three_digits_spell(a: int, b: int, c: int)
    requires
        0 <= a < 10,
        0 <= b < 10,
        0 <= c < 10,
    ensures
        crate::text::decimal_value(
            Seq::empty().push(digit_char(a)).push(digit_char(b)).push(digit_char(c)),
        ) == 100 * a + 10 * b + c,
{
    let empty = Seq::<char>::empty();
    assert(digit_char(a) as int == 48 + a && digit_char(b) as int == 48 + b && digit_char(c) as int
        == 48 + c);
    crate::text::law_digits_are_decimal(empty, digit_char(a));
    crate::text::law_digits_are_decimal(empty.push(digit_char(a)), digit_char(b));
    crate::text::law_digits_are_decimal(
        empty.push(digit_char(a)).push(digit_char(b)),
        digit_char(c),
    );
}

/// A target is met exactly when 99 in a hundred samples are below it; the verdict
/// names the target.
pub proof fn law_a_target_is_met_below_it(samples: Seq<u64>, target: u64)
    ensures
        ({
            let met = samples.len() > 0 && at_percent(samples, 99)->0 < target * 1000;
            verdict_text(samples, Some(target)) == (if met {
                "  MET (target p99 < "@
            } else {
                "  MISSED (target p99 < "@
            }) + decimal(target as nat) + " ms)"@
        }),
        verdict_text(samples, None) == Seq::<char>::empty(),
{
}

/// A report begins with its label and says how many samples there were, and the
/// median, the 99th percentile and the largest of them, each in full.
#[verifier::rlimit(40)]
pub proof fn law_a_report_says_all_of_the_samples(
    label: Seq<char>,
    samples: Seq<u64>,
    target_ms: Option<u64>,
)
    ensures
        ({
            let report = report_text(label, samples, target_ms);
            let largest = if samples.len() == 0 {
                0u64
            } else {
                samples.last()
            };
            &&& report.take(label.len() as int) == label
            &&& crate::text::holds_part(report, " n="@ + decimal(samples.len()))
            &&& crate::text::holds_part(report, millis(at_percent(samples, 50)) + "  p99 "@)
            &&& crate::text::holds_part(report, millis(at_percent(samples, 99)) + "  max "@)
            &&& crate::text::holds_part(report, millis(Some(largest)) + " ms"@)
            &&& report.skip(report.len() - verdict_text(samples, target_ms).len()) == verdict_text(
                samples,
                target_ms,
            )
        }),
{
    let count = decimal(samples.len());
    let p50 = millis(at_percent(samples, 50));
    let p99 = millis(at_percent(samples, 99));
    let largest = if samples.len() == 0 {
        0u64
    } else {
        samples.last()
    };
    let max = millis(Some(largest));
    let verdict = verdict_text(samples, target_ms);
    let report = report_text(label, samples, target_ms);
    let a = label + blanks(28 - label.len());
    let n = " n="@;
    let b = count + blanks(6 - count.len());
    let c = " p50 "@;
    let d = blanks(8 - p50.len()) + p50;
    let e = "  p99 "@;
    let f = blanks(8 - p99.len()) + p99;
    let g = "  max "@;
    let h = blanks(8 - max.len()) + max;
    let i = " ms"@;
    assert(report == a + n + b + c + d + e + f + g + h + i + verdict);
    lemma_parts(a, n, count, blanks(6 - count.len()), c + d + e + f + g + h + i + verdict);
    lemma_regroup(a + n + b, c, d, e, f, g, h, i, verdict);
    lemma_parts(
        a + n + b + c + blanks(8 - p50.len()),
        p50,
        e,
        Seq::empty(),
        f + g + h + i + verdict,
    );
    lemma_regroup_padded(a + n + b + c, blanks(8 - p50.len()), p50, e, f + g + h + i + verdict);
    lemma_parts(
        a + n + b + c + d + e + blanks(8 - p99.len()),
        p99,
        g,
        Seq::empty(),
        h + i + verdict,
    );
    lemma_regroup_padded(a + n + b + c + d + e, blanks(8 - p99.len()), p99, g, h + i + verdict);
    lemma_parts(
        a + n + b + c + d + e + f + g + blanks(8 - max.len()),
        max,
        i,
        Seq::empty(),
        verdict,
    );
    lemma_regroup_padded(a + n + b + c + d + e + f + g, blanks(8 - max.len()), max, i, verdict);
    assert(report.skip(report.len() - verdict.len()) =~= verdict);
    assert(report.take(label.len() as int) =~= label);
}

proof fn lemma_parts(
    before: Seq<char>,
    one: Seq<char>,
    two: Seq<char>,
    three: Seq<char>,
    after: Seq<char>,
)
    ensures
        crate::text::holds_part(before + one + (two + three) + after, one + two),
{
    crate::text::lemma_holds_part(before, one + two, three + after);
    assert(before + (one + two) + (three + after) =~= before + one + (two + three) + after);
}

proof fn lemma_regroup(
    before: Seq<char>,
    c: Seq<char>,
    d: Seq<char>,
    e: Seq<char>,
    f: Seq<char>,
    g: Seq<char>,
    h: Seq<char>,
    i: Seq<char>,
    last: Seq<char>,
)
    ensures
        before + c + d + e + f + g + h + i + last == before + (c + d + e + f + g + h + i + last),
        before + c + d + e + f + g + h + i + last == before + c + d + (e) + (f + g + h + i + last),
        before + c + d + e + f + g + h + i + last == before + c + d + e + f + g + (h + i + last),
{
    assert(before + c + d + e + f + g + h + i + last =~= before + (c + d + e + f + g + h + i + last));
    assert(before + c + d + e + f + g + h + i + last =~= before + c + d + (e) + (f + g + h + i
        + last));
    assert(before + c + d + e + f + g + h + i + last =~= before + c + d + e + f + g + (h + i + last));
}

proof fn lemma_regroup_padded(
    before: Seq<char>,
    pad: Seq<char>,
    text: Seq<char>,
    mark: Seq<char>,
    after: Seq<char>,
)
    ensures
        before + (pad + text) + mark + after == before + pad + text + (mark + Seq::empty()) + after,
{
    assert(before + (pad + text) + mark + after =~= before + pad + text + (mark + Seq::empty())
        + after);
}

/// The number that seven bits of each byte make, the first byte's least.
pub open spec fn leb128_value(bytes: Seq<u8>) -> nat
    decreases bytes.len(),
{
    if bytes.len() == 0 {
        0
    } else {
        (bytes[0] % 128) as nat + 128 * leb128_value(bytes.drop_first())
    }
}

/// A number written in groups of seven bits is that number, and only its last byte
/// has the top bit clear.
pub proof fn law_groups_of_seven_bits_spell_the_number(n: nat)
    ensures
        leb128(n).len() > 0,
        leb128_value(leb128(n)) == n,
        forall|i: int| 0 <= i < leb128(n).len() ==> (#[trigger] leb128(n)[i] < 128 <==> i
            == leb128(n).len() - 1),
    decreases n,
{
    let all = leb128(n);
    if n < 128 {
        assert(all.drop_first() =~= Seq::empty());
        assert(leb128_value(all.drop_first()) == 0);
    } else {
        let rest = leb128(n / 128);
        law_groups_of_seven_bits_spell_the_number(n / 128);
        assert(all.drop_first() =~= rest);
        assert forall|i: int| 0 <= i < all.len() implies (#[trigger] all[i] < 128 <==> i == all.len()
            - 1) by {
            if i > 0 {
                assert(all[i] == rest[i - 1]);
            }
        }
    }
}

/// A module is made unique by a custom section behind it: the section's number, its
/// length, its name with the length of that before it, and the number.
pub proof fn law_a_unique_module_has_one_more_section(wasm: Seq<u8>, n: u64)
    ensures
        ({
            let name = seq![110u8, 101, 98, 117, 108, 97, 45, 98, 101, 110, 99, 104];
            let held = seq![12u8] + name + spec_u64_to_le_bytes(n);
            unique(wasm, n) == wasm + seq![0u8] + leb128(held.len()) + held
        }),
{
    let name = seq![110u8, 101, 98, 117, 108, 97, 45, 98, 101, 110, 99, 104];
    assert(section_name() =~= name);
}

/// Filler is added until the target is reached, and not once more: what was there
/// stays in front, and without the last function the target would be missed.
pub proof fn law_filler_stops_at_the_target(wat: Seq<char>, seed: nat, n: nat, target: nat)
    ensures
        ({
            let out = filled(wat, seed, n, target);
            &&& wat.is_prefix_of(out)
            &&& out.len() >= target
            &&& wat.len() >= target ==> out == wat
            &&& wat.len() < target ==> exists|k: nat, before: Seq<char>|
                n <= k && out == before + #[trigger] filler(seed, k) && #[trigger] before.len()
                    < target
        }),
    decreases (if wat.len() < target {
        target - wat.len()
    } else {
        0
    }),
{
    let out = filled(wat, seed, n, target);
    reveal_strlit("\n  (func $f");
    assert(filler(seed, n).len() > 0);
    if wat.len() >= target {
        assert(wat =~= wat.take(wat.len() as int));
    } else {
        let more = wat + filler(seed, n);
        law_filler_stops_at_the_target(more, seed, n + 1, target);
        assert(wat =~= out.take(wat.len() as int)) by {
            assert(more =~= out.take(more.len() as int));
        }
        if more.len() >= target {
            assert(out == wat + filler(seed, n) && wat.len() < target);
        } else {
            let (k, before) = choose|k: nat, before: Seq<char>|
                n + 1 <= k && out == before + #[trigger] filler(seed, k) && #[trigger] before.len()
                    < target;
            assert(n <= k && out == before + filler(seed, k) && before.len() < target);
        }
    }
}

/// Padding is blanks, as many as are asked for, and none for less than none.
pub proof fn law_padding_is_blanks(n: int, i: int)
    ensures
        n >= 0 ==> blanks(n).len() == n,
        n < 0 ==> blanks(n).len() == 0,
        0 <= i < n ==> blanks(n)[i] == ' ',
{
}

} // verus!
