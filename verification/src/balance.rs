//! The command line of the balance batch.
//!
//! Every flag is refused rather than guessed: a typo that silently halves the
//! batch would be a wrong number reported as a right one, and so would a count
//! that wrapped on its way in.

use vstd::prelude::*;

use crate::batch::BatchSettings;
use crate::headless::{DEFAULT_TICK_CAP, SIM_HZ};
use crate::text;

verus! {

/// How the batch is called.
pub const USAGE: &'static str = "usage: balance [--seeds K] [--seed-base N] [--tick-cap T] [--minutes M] [--only a,b,c] [--help]\n\nevery matchup is played in both spawn orientations, so the batch is\nN x N x K x 2 matches.\n--tick-cap and --minutes set the same budget: the last one given wins.\nout-of-range values are refused, never truncated.";

/// What the command line asked for.
#[derive(Debug)]
pub enum Request {
    Help,
    Run(BatchSettings),
}

/// Settings, as a mathematical value.
pub struct Options {
    pub seeds: u32,
    pub seed_base: u64,
    pub tick_cap: u32,
    pub only: Option<Seq<Seq<char>>>,
}

/// The settings of a batch, as a mathematical value.
pub open spec fn options(s: BatchSettings) -> Options {
    Options {
        seeds: s.seeds,
        seed_base: s.seed_base,
        tick_cap: s.tick_cap,
        only: match s.only {
            Some(ids) => Some(text::views(ids@)),
            None => None,
        },
    }
}

/// The settings that nothing was asked of.
pub open spec fn plain() -> Options {
    Options { seeds: 1, seed_base: 0, tick_cap: DEFAULT_TICK_CAP, only: None }
}

/// What a command line comes to.
pub enum Answer {
    Help,
    Run(Options),
    Refused(Seq<char>),
}

// ---- numbers ----------------------------------------------------------------

/// Is a character a decimal digit?
pub open spec fn is_digit(c: char) -> bool {
    '0' <= c && c <= '9'
}

/// The number that digits stand for.
pub open spec fn value_of(digits: Seq<char>) -> nat
    decreases digits.len(),
{
    if digits.len() == 0 {
        0
    } else {
        value_of(digits.drop_last()) * 10 + (digits.last() as nat - '0' as nat) as nat
    }
}

/// The number a text stands for: decimal digits, with a plus in front if one
/// likes, that fit.
pub open spec fn number_of(s: Seq<char>) -> Option<nat> {
    let digits = if s.len() > 0 && s[0] == '+' {
        s.skip(1)
    } else {
        s
    };
    if digits.len() > 0 && (forall|i: int| 0 <= i < digits.len() ==> is_digit(#[trigger] digits[i]))
        && value_of(digits) <= u64::MAX {
        Some(value_of(digits))
    } else {
        None
    }
}

/// What parsing says of a text that is no such number, as its error displays.
pub uninterp spec fn number_complaint(s: Seq<char>) -> Seq<char>;

/// Reads a number through `str::parse::<u64>`. Claimed of it: it succeeds
/// exactly on an optional plus sign followed by decimal digits whose value fits,
/// and gives that value; otherwise the error, displayed, is a function of the
/// text. Left unsaid are the wording, and which of several faults is told: the
/// documentation gives neither.
#[verifier::external_body]
fn read_number(s: &str) -> (r: Result<u64, String>)
    ensures
        match r {
            Ok(n) => number_of(s@) == Some(n as nat),
            Err(e) => number_of(s@) is None && e@ == number_complaint(s@),
        },
{
    s.parse::<u64>().map_err(|e| format!("{e}"))
}

// ---- lists ------------------------------------------------------------------

/// Is a character white space?
pub open spec fn is_white(c: char) -> bool {
    let n = c as u32;
    ||| 9 <= n <= 13
    ||| n == 0x20
    ||| n == 0x85
    ||| n == 0xa0
    ||| n == 0x1680
    ||| 0x2000 <= n <= 0x200a
    ||| n == 0x2028
    ||| n == 0x2029
    ||| n == 0x202f
    ||| n == 0x205f
    ||| n == 0x3000
}

/// A text without the white space at its end.
pub open spec fn end_trimmed(s: Seq<char>) -> Seq<char>
    decreases s.len(),
{
    if s.len() > 0 && is_white(s.last()) {
        end_trimmed(s.drop_last())
    } else {
        s
    }
}

/// A text without the white space at its start.
pub open spec fn start_trimmed(s: Seq<char>) -> Seq<char>
    decreases s.len(),
{
    if s.len() > 0 && is_white(s[0]) {
        start_trimmed(s.skip(1))
    } else {
        s
    }
}

/// A text without the white space around it.
pub open spec fn trimmed(s: Seq<char>) -> Seq<char> {
    end_trimmed(start_trimmed(s))
}

/// The pieces between commas, from place `k` on, the current one begun at `from`.
pub open spec fn pieces(s: Seq<char>, from: int, k: int) -> Seq<Seq<char>>
    decreases s.len() - k,
{
    if k < 0 || k >= s.len() {
        seq![s.subrange(from, s.len() as int)]
    } else if s[k] == ',' {
        seq![s.subrange(from, k)] + pieces(s, k + 1, k + 1)
    } else {
        pieces(s, from, k + 1)
    }
}

/// The ids of a list, as they were meant.
pub open spec fn listed(s: Seq<char>) -> Seq<Seq<char>> {
    pieces(s, 0, 0).map_values(|p: Seq<char>| trimmed(p))
}

fn white(c: char) -> (r: bool)
    ensures
        r == is_white(c),
{
    let n: u32 = c as u32;
    (9 <= n && n <= 13) || n == 0x20 || n == 0x85 || n == 0xa0 || n == 0x1680 || (0x2000 <= n && n
        <= 0x200a) || n == 0x2028 || n == 0x2029 || n == 0x202f || n == 0x205f || n == 0x3000
}

/// A text without the white space around it.
fn trim(s: &str) -> (r: String)
    ensures
        r@ == trimmed(s@),
{
    let n: usize = s.unicode_len();
    let mut a: usize = 0;
    assert(s@.skip(0) =~= s@);
    while a < n && white(s.get_char(a))
        invariant
            a <= n,
            n == s@.len(),
            start_trimmed(s@) == start_trimmed(s@.skip(a as int)),
        ensures
            a <= n,
            n == s@.len(),
            start_trimmed(s@) == s@.skip(a as int),
        decreases n - a,
    {
        assert(s@.skip(a as int)[0] == s@[a as int]);
        assert(s@.skip(a as int).skip(1) =~= s@.skip(a + 1));
        a = a + 1;
    }
    let ghost rest = s@.skip(a as int);
    let mut b: usize = n;
    assert(s@.subrange(a as int, n as int) =~= rest);
    while b > a && white(s.get_char(b - 1))
        invariant
            a <= b <= n,
            n == s@.len(),
            end_trimmed(rest) == end_trimmed(s@.subrange(a as int, b as int)),
        ensures
            a <= b <= n,
            end_trimmed(rest) == s@.subrange(a as int, b as int),
        decreases b,
    {
        assert(s@.subrange(a as int, b as int).last() == s@[b - 1]);
        assert(s@.subrange(a as int, b as int).drop_last() =~= s@.subrange(a as int, b - 1));
        b = b - 1;
    }
    s.substring_char(a, b).to_owned()
}

/// The ids of a comma-separated list.
fn split_list(s: &str) -> (r: Vec<String>)
    ensures
        text::views(r@) == listed(s@),
{
    let n: usize = s.unicode_len();
    let ghost f = |p: Seq<char>| trimmed(p);
    let mut out: Vec<String> = Vec::new();
    let mut from: usize = 0;
    let mut k: usize = 0;
    assert(text::views(out@) + pieces(s@, 0, 0).map_values(f) =~= listed(s@));
    while k < n
        invariant
            from <= k <= n,
            n == s@.len(),
            f == (|p: Seq<char>| trimmed(p)),
            listed(s@) == text::views(out@) + pieces(s@, from as int, k as int).map_values(f),
        decreases n - k,
    {
        if s.get_char(k) == ',' {
            let piece: String = trim(s.substring_char(from, k));
            let ghost before = out@;
            out.push(piece);
            proof {
                let p = s@.subrange(from as int, k as int);
                let more = pieces(s@, k + 1, k + 1);
                assert(text::views(out@) =~= text::views(before).push(f(p)));
                assert((seq![p] + more).map_values(f) =~= seq![f(p)] + more.map_values(f));
                assert(text::views(before) + (seq![f(p)] + more.map_values(f)) =~= text::views(out@)
                    + more.map_values(f));
            }
            from = k + 1;
        }
        k = k + 1;
    }
    let last: String = trim(s.substring_char(from, n));
    let ghost before = out@;
    out.push(last);
    proof {
        let p = s@.subrange(from as int, n as int);
        assert(seq![p].map_values(f) =~= seq![f(p)]);
        assert(text::views(out@) =~= text::views(before) + seq![f(p)]);
    }
    out
}

// ---- flags ------------------------------------------------------------------

/// What one flag comes to.
pub enum Step {
    Next(Options),
    Help,
    Refused(Seq<char>),
}

/// A flag that lacks its value.
pub open spec fn needs_value(flag: Seq<char>) -> Seq<char> {
    flag + " needs a value"@
}

/// A value that is out of range.
pub open spec fn out_of_range(flag: Seq<char>, n: nat, max: nat) -> Seq<char> {
    flag + ": "@ + text::dec(n) + " is out of range (max "@ + text::dec(max) + ")"@
}

/// The number after a flag, or why there is none.
pub open spec fn number_after(flag: Seq<char>, value: Option<Seq<char>>) -> Result<nat, Seq<char>> {
    match value {
        None => Err(needs_value(flag)),
        Some(s) => match number_of(s) {
            Some(n) => Ok(n),
            None => Err(flag + ": "@ + number_complaint(s)),
        },
    }
}

/// The count after a flag: a number that fits, or why there is none.
pub open spec fn count_after(flag: Seq<char>, value: Option<Seq<char>>) -> Result<u32, Seq<char>> {
    match number_after(flag, value) {
        Ok(n) => if n <= u32::MAX {
            Ok(n as u32)
        } else {
            Err(out_of_range(flag, n, u32::MAX as nat))
        },
        Err(m) => Err(m),
    }
}

/// What a flag and the argument behind it come to.
pub open spec fn flag_step(st: Options, flag: Seq<char>, value: Option<Seq<char>>) -> Step {
    if flag == "--seeds"@ {
        match count_after(flag, value) {
            Ok(n) => Step::Next(Options { seeds: n, ..st }),
            Err(m) => Step::Refused(m),
        }
    } else if flag == "--seed-base"@ {
        match number_after(flag, value) {
            Ok(n) => Step::Next(Options { seed_base: n as u64, ..st }),
            Err(m) => Step::Refused(m),
        }
    } else if flag == "--tick-cap"@ {
        match count_after(flag, value) {
            Ok(n) => Step::Next(Options { tick_cap: n, ..st }),
            Err(m) => Step::Refused(m),
        }
    } else if flag == "--minutes"@ {
        match number_after(flag, value) {
            Ok(m) => if m * 60 * SIM_HZ <= u32::MAX {
                Step::Next(Options { tick_cap: (m * 60 * SIM_HZ) as u32, ..st })
            } else {
                Step::Refused(out_of_range(flag, m, u32::MAX as nat / 3600))
            },
            Err(m) => Step::Refused(m),
        }
    } else if flag == "--only"@ {
        match value {
            Some(s) => Step::Next(Options { only: Some(listed(s)), ..st }),
            None => Step::Refused(needs_value(flag)),
        }
    } else if flag == "--help"@ || flag == "-h"@ {
        Step::Help
    } else {
        Step::Refused("unknown flag `"@ + flag + "`\n"@ + USAGE@)
    }
}

/// The argument at `i`, if there is one.
pub open spec fn argument(args: Seq<Seq<char>>, i: int) -> Option<Seq<char>> {
    if 0 <= i < args.len() {
        Some(args[i])
    } else {
        None
    }
}

/// What a command line comes to, from place `i` on.
pub open spec fn answer_from(args: Seq<Seq<char>>, st: Options, i: int) -> Answer
    decreases args.len() - i,
{
    if i < 0 || i >= args.len() {
        if st.seeds == 0 {
            Answer::Refused("--seeds must be at least 1"@)
        } else if st.tick_cap == 0 {
            Answer::Refused("--tick-cap must be at least 1"@)
        } else {
            Answer::Run(st)
        }
    } else {
        match flag_step(st, args[i], argument(args, i + 1)) {
            Step::Next(next) => answer_from(args, next, i + 2),
            Step::Help => Answer::Help,
            Step::Refused(m) => Answer::Refused(m),
        }
    }
}

fn range_message(flag: &str, n: u64, max: u64) -> (r: String)
    ensures
        r@ == out_of_range(flag@, n as nat, max as nat),
{
    let mut m: String = flag.to_owned();
    m.append(": ");
    text::push_dec(&mut m, n);
    m.append(" is out of range (max ");
    text::push_dec(&mut m, max);
    m.append(")");
    m
}

fn missing_message(flag: &str) -> (r: String)
    ensures
        r@ == needs_value(flag@),
{
    let mut m: String = flag.to_owned();
    m.append(" needs a value");
    m
}

/// The argument behind a flag.
spec fn behind(value: Option<&String>) -> Option<Seq<char>> {
    match value {
        Some(s) => Some(s@),
        None => None,
    }
}

fn number(flag: &str, value: Option<&String>) -> (r: Result<u64, String>)
    ensures
        match r {
            Ok(n) => number_after(flag@, behind(value)) == Ok::<nat, Seq<char>>(n as nat),
            Err(m) => number_after(flag@, behind(value)) == Err::<nat, Seq<char>>(m@),
        },
{
    match value {
        None => Err(missing_message(flag)),
        Some(s) => match read_number(s.as_str()) {
            Ok(n) => Ok(n),
            Err(e) => Err(text::cat3(flag, ": ", e.as_str())),
        },
    }
}

fn count(flag: &str, value: Option<&String>) -> (r: Result<u32, String>)
    ensures
        match r {
            Ok(n) => count_after(flag@, behind(value)) == Ok::<u32, Seq<char>>(n),
            Err(m) => count_after(flag@, behind(value)) == Err::<u32, Seq<char>>(m@),
        },
{
    match number(flag, value) {
        Ok(n) => if n <= u32::MAX as u64 {
            Ok(n as u32)
        } else {
            Err(range_message(flag, n, u32::MAX as u64))
        },
        Err(m) => Err(m),
    }
}

/// What a flag changes.
fn take_flag(settings: &mut BatchSettings, flag: &str, value: Option<&String>) -> (r: Result<
    bool,
    String,
>)
    ensures
        ({
            let step = flag_step(options(*old(settings)), flag@, behind(value));
            match r {
                Ok(true) => step == Step::Next(options(*final(settings))),
                Ok(false) => step is Help,
                Err(m) => step == Step::Refused(m@),
            }
        }),
{
    if text::same(flag, "--seeds") {
        match count(flag, value) {
            Ok(n) => {
                settings.seeds = n;
                Ok(true)
            },
            Err(m) => Err(m),
        }
    } else if text::same(flag, "--seed-base") {
        match number(flag, value) {
            Ok(n) => {
                settings.seed_base = n;
                Ok(true)
            },
            Err(m) => Err(m),
        }
    } else if text::same(flag, "--tick-cap") {
        match count(flag, value) {
            Ok(n) => {
                settings.tick_cap = n;
                Ok(true)
            },
            Err(m) => Err(m),
        }
    } else if text::same(flag, "--minutes") {
        match number(flag, value) {
            Ok(m) => {
                let most: u64 = u32::MAX as u64 / (60 * SIM_HZ as u64);
                if m <= most {
                    settings.tick_cap = (m * 60 * SIM_HZ as u64) as u32;
                    Ok(true)
                } else {
                    Err(range_message(flag, m, most))
                }
            },
            Err(m) => Err(m),
        }
    } else if text::same(flag, "--only") {
        match value {
            Some(s) => {
                settings.only = Some(split_list(s.as_str()));
                Ok(true)
            },
            None => Err(missing_message(flag)),
        }
    } else if text::same(flag, "--help") || text::same(flag, "-h") {
        Ok(false)
    } else {
        let mut m: String = text::cat3("unknown flag `", flag, "`\n");
        m.append(USAGE);
        Err(m)
    }
}

/// Parse the arguments into a request.
pub fn parse(args: &Vec<String>) -> (r: Result<Request, String>)
    ensures
        match (r, answer_from(text::views(args@), plain(), 0)) {
            (Ok(Request::Help), a) => a is Help,
            (Ok(Request::Run(s)), a) => a == Answer::Run(options(s)),
            (Err(m), a) => a == Answer::Refused(m@),
        },
{
    let ghost all = text::views(args@);
    let n: usize = args.len();
    let mut settings: BatchSettings = BatchSettings::default();
    let mut i: usize = 0;
    while i < n
        invariant
            n == args@.len(),
            all == text::views(args@),
            answer_from(all, plain(), 0) == answer_from(all, options(settings), i as int),
        decreases n - i,
    {
        let value: Option<&String> = if n - i > 1 {
            Some(&args[i + 1])
        } else {
            None
        };
        proof {
            assert(all[i as int] == args@[i as int]@);
            assert(behind(value) == argument(all, i + 1));
        }
        match take_flag(&mut settings, args[i].as_str(), value) {
            Ok(true) => {},
            Ok(false) => {
                return Ok(Request::Help);
            },
            Err(m) => {
                return Err(m);
            },
        }
        if n - i <= 2 {
            assert(answer_from(all, options(settings), i + 2) == answer_from(
                all,
                options(settings),
                n as int,
            ));
            i = n;
        } else {
            i = i + 2;
        }
    }
    if settings.seeds == 0 {
        return Err("--seeds must be at least 1".to_owned());
    }
    if settings.tick_cap == 0 {
        return Err("--tick-cap must be at least 1".to_owned());
    }
    Ok(Request::Run(settings))
}

/// `m:ss` of a tick count.
pub open spec fn duration_shown(ticks: u32) -> Seq<char> {
    let secs = ticks as nat / SIM_HZ as nat;
    text::dec(secs / 60) + ":"@ + text::dec2(secs % 60)
}

/// `m:ss` of a tick count.
pub fn mmss(ticks: u32) -> (r: String)
    ensures
        r@ == duration_shown(ticks),
{
    let secs: u64 = ticks as u64 / SIM_HZ as u64;
    let mut s: String = text::decimal(secs / 60);
    s.append(":");
    text::push_dec2(&mut s, secs % 60);
    s
}

// ---- laws -------------------------------------------------------------------

/// Nothing is truncated: settings that come out of a command line have at least
/// one seed and one tick, whatever was asked.
pub proof fn a_batch_always_plays(args: Seq<Seq<char>>, st: Options, i: int)
    ensures
        answer_from(args, st, i) matches Answer::Run(o) ==> o.seeds >= 1 && o.tick_cap >= 1,
    decreases args.len() - i,
{
    if 0 <= i < args.len() {
        match flag_step(st, args[i], argument(args, i + 1)) {
            Step::Next(next) => a_batch_always_plays(args, next, i + 2),
            _ => {},
        }
    }
}

/// The tick cap and the minutes set one budget, and the last one given wins.
pub proof fn the_last_budget_wins(st: Options, a: Seq<char>, b: Seq<char>)
    requires
        number_of(a) is Some,
        number_of(b) is Some,
        number_of(a)->0 <= u32::MAX,
        number_of(b)->0 * 60 * SIM_HZ <= u32::MAX,
    ensures
        ({
            let cap = flag_step(st, "--tick-cap"@, Some(a));
            let minutes = flag_step(st, "--minutes"@, Some(b));
            &&& cap is Next && minutes is Next
            &&& flag_step(cap->Next_0, "--minutes"@, Some(b)) == minutes
            &&& flag_step(minutes->Next_0, "--tick-cap"@, Some(a)) == cap
        }),
{
    reveal_strlit("--tick-cap");
    reveal_strlit("--minutes");
    reveal_strlit("--seeds");
    reveal_strlit("--seed-base");
    assert("--tick-cap"@.len() != "--minutes"@.len());
    assert("--tick-cap"@.len() != "--seeds"@.len());
    assert("--tick-cap"@[2] != "--seed-base"@[2]);
    assert("--minutes"@.len() != "--seeds"@.len());
    assert("--minutes"@.len() != "--seed-base"@.len());
}

/// A flag sets what it names, and nothing else: the seeds, the first seed, or the
/// budget in ticks.
pub proof fn a_flag_sets_what_it_names(st: Options, s: Seq<char>, n: nat)
    requires
        number_of(s) == Some(n),
    ensures
        n <= u32::MAX ==> flag_step(st, "--seeds"@, Some(s)) == Step::Next(
            Options { seeds: n as u32, ..st },
        ),
        n > u32::MAX ==> flag_step(st, "--seeds"@, Some(s)) is Refused,
        flag_step(st, "--seed-base"@, Some(s)) == Step::Next(
            Options { seed_base: n as u64, ..st },
        ),
        n <= u32::MAX ==> flag_step(st, "--tick-cap"@, Some(s)) == Step::Next(
            Options { tick_cap: n as u32, ..st },
        ),
        n > u32::MAX ==> flag_step(st, "--tick-cap"@, Some(s)) is Refused,
        n * 60 * SIM_HZ <= u32::MAX ==> flag_step(st, "--minutes"@, Some(s)) == Step::Next(
            Options { tick_cap: (n * 60 * SIM_HZ) as u32, ..st },
        ),
        n * 60 * SIM_HZ > u32::MAX ==> flag_step(st, "--minutes"@, Some(s)) is Refused,
{
    reveal_strlit("--tick-cap");
    reveal_strlit("--minutes");
    reveal_strlit("--seeds");
    reveal_strlit("--seed-base");
    assert("--tick-cap"@.len() == 10 && "--minutes"@.len() == 9 && "--seeds"@.len() == 7
        && "--seed-base"@.len() == 11);
}

/// The list of strategies sets who plays, and nothing else; a flag that needs a
/// value and has none is refused.
pub proof fn a_list_sets_who_plays(st: Options, s: Seq<char>)
    ensures
        flag_step(st, "--only"@, Some(s)) == Step::Next(Options { only: Some(listed(s)), ..st }),
        flag_step(st, "--only"@, None) is Refused,
        flag_step(st, "--seeds"@, None) is Refused,
        flag_step(st, "--help"@, None) is Help,
{
    reveal_strlit("--tick-cap");
    reveal_strlit("--minutes");
    reveal_strlit("--seeds");
    reveal_strlit("--seed-base");
    reveal_strlit("--only");
    reveal_strlit("--help");
    assert("--only"@[2] == 'o' && "--help"@[2] == 'h');
    assert("--only"@.len() == 6 && "--help"@.len() == 6);
    assert("--tick-cap"@.len() == 10 && "--minutes"@.len() == 9 && "--seeds"@.len() == 7
        && "--seed-base"@.len() == 11);
}

/// Splitting a list at its commas loses nothing: the pieces, with a comma between
/// each two, are the list, and no piece holds a comma.
pub proof fn a_list_is_split_at_its_commas(s: Seq<char>, from: int, k: int)
    requires
        0 <= from <= k <= s.len(),
        forall|i: int| from <= i < k ==> s[i] != ',',
    ensures
        text::joined(pieces(s, from, k), seq![',']) == s.subrange(from, s.len() as int),
        forall|p: int, i: int|
            0 <= p < pieces(s, from, k).len() && 0 <= i < pieces(s, from, k)[p].len()
                ==> #[trigger] pieces(s, from, k)[p][i] != ',',
        pieces(s, from, k).len() > 0,
    decreases s.len() - k,
{
    let all = pieces(s, from, k);
    if k >= s.len() {
        lemma_joined_one(all[0]);
        assert(all =~= seq![all[0]]);
    } else if s[k] == ',' {
        a_list_is_split_at_its_commas(s, k + 1, k + 1);
        let rest = pieces(s, k + 1, k + 1);
        let head = s.subrange(from, k);
        assert(all == seq![head] + rest);
        lemma_joined_front(head, rest);
        assert(head + seq![','] + s.subrange(k + 1, s.len() as int) =~= s.subrange(
            from,
            s.len() as int,
        ));
        assert forall|p: int, i: int|
            0 <= p < all.len() && 0 <= i < all[p].len() implies #[trigger] all[p][i] != ',' by {
            if p > 0 {
                assert(all[p] == rest[p - 1]);
                assert(rest[p - 1][i] != ',');
            } else {
                assert(all[p] == head);
                assert(head[i] == s[from + i]);
            }
        }
    } else {
        a_list_is_split_at_its_commas(s, from, k + 1);
    }
}

proof fn lemma_joined_one(p: Seq<char>)
    ensures
        text::joined(seq![p], seq![',']) == p,
{
}

proof fn lemma_joined_front(head: Seq<char>, rest: Seq<Seq<char>>)
    requires
        rest.len() > 0,
    ensures
        text::joined(seq![head] + rest, seq![',']) == head + seq![','] + text::joined(
            rest,
            seq![','],
        ),
    decreases rest.len(),
{
    let comma = seq![','];
    let all = seq![head] + rest;
    assert(all.drop_last() =~= seq![head] + rest.drop_last());
    assert(all.last() == rest.last());
    if rest.len() == 1 {
        assert(all.drop_last() =~= seq![head]);
        assert(text::joined(all.drop_last(), comma) == head);
        assert(text::joined(rest, comma) == rest[0]);
    } else {
        lemma_joined_front(head, rest.drop_last());
        let mid = text::joined(rest.drop_last(), comma);
        assert(head + comma + mid + comma + rest.last() =~= head + comma + (mid + comma
            + rest.last()));
    }
}

proof fn lemma_value_of_numeral(n: nat)
    ensures
        value_of(text::dec(n)) == n,
        text::dec(n).len() > 0,
        forall|i: int| 0 <= i < text::dec(n).len() ==> is_digit(#[trigger] text::dec(n)[i]),
    decreases n,
{
    let s = text::dec(n);
    reveal_with_fuel(value_of, 2);
    if n < 10 {
        assert(s.drop_last() =~= Seq::<char>::empty());
        assert(is_digit(s[0]));
    } else {
        lemma_value_of_numeral(n / 10);
        assert(s.drop_last() =~= text::dec(n / 10));
        assert(s.last() == text::digit((n % 10) as int));
        assert forall|i: int| 0 <= i < s.len() implies is_digit(#[trigger] s[i]) by {
            if i < s.len() - 1 {
                assert(s[i] == text::dec(n / 10)[i]);
            }
        }
    }
}

/// A number that is written out reads back as itself, with or without a plus.
pub proof fn a_number_reads_back(n: nat)
    requires
        n <= u64::MAX,
    ensures
        number_of(text::dec(n)) == Some(n),
        number_of(seq!['+'] + text::dec(n)) == Some(n),
{
    lemma_value_of_numeral(n);
    let s = text::dec(n);
    assert(is_digit(s[0]));
    assert((seq!['+'] + s).skip(1) =~= s);
}

/// White space around a text goes, and nothing else: what is left neither starts
/// nor ends with any.
pub proof fn trimming_takes_only_the_ends(s: Seq<char>)
    ensures
        trimmed(s).len() > 0 ==> !is_white(trimmed(s)[0]) && !is_white(trimmed(s).last()),
        exists|a: int, b: int|
            0 <= a <= b <= s.len() && trimmed(s) == #[trigger] s.subrange(a, b) && (forall|i: int|
                0 <= i < a ==> is_white(#[trigger] s[i])) && (forall|i: int|
                b <= i < s.len() ==> is_white(#[trigger] s[i])),
{
    let a = lemma_start(s);
    let t = start_trimmed(s);
    let b = lemma_end(t);
    let r = trimmed(s);
    assert(r =~= s.subrange(a, a + b));
    assert forall|i: int| a + b <= i < s.len() implies is_white(#[trigger] s[i]) by {
        assert(t[i - a] == s[i]);
    }
    if r.len() > 0 {
        assert(r[0] == t[0]);
    }
}

proof fn lemma_start(s: Seq<char>) -> (a: int)
    ensures
        0 <= a <= s.len(),
        start_trimmed(s) == s.subrange(a, s.len() as int),
        forall|i: int| 0 <= i < a ==> is_white(#[trigger] s[i]),
        a < s.len() ==> !is_white(s[a]),
    decreases s.len(),
{
    if s.len() > 0 && is_white(s[0]) {
        let a = lemma_start(s.skip(1));
        assert(start_trimmed(s) =~= s.subrange(a + 1, s.len() as int));
        assert forall|i: int| 0 <= i < a + 1 implies is_white(#[trigger] s[i]) by {
            if i > 0 {
                assert(s.skip(1)[i - 1] == s[i]);
            }
        }
        if a + 1 < s.len() {
            assert(s.skip(1)[a] == s[a + 1]);
        }
        a + 1
    } else {
        assert(s.subrange(0, s.len() as int) =~= s);
        0
    }
}

proof fn lemma_end(s: Seq<char>) -> (b: int)
    ensures
        0 <= b <= s.len(),
        end_trimmed(s) == s.subrange(0, b),
        forall|i: int| b <= i < s.len() ==> is_white(#[trigger] s[i]),
        b > 0 ==> !is_white(s[b - 1]),
    decreases s.len(),
{
    if s.len() > 0 && is_white(s.last()) {
        let b = lemma_end(s.drop_last());
        assert(end_trimmed(s) =~= s.subrange(0, b));
        assert forall|i: int| b <= i < s.len() implies is_white(#[trigger] s[i]) by {
            if i < s.len() - 1 {
                assert(s.drop_last()[i] == s[i]);
            }
        }
        if b > 0 {
            assert(s.drop_last()[b - 1] == s[b - 1]);
        }
        b
    } else {
        assert(s.subrange(0, s.len() as int) =~= s);
        s.len() as int
    }
}

/// A budget is shown as whole minutes and the seconds left over.
pub proof fn a_duration_shows_minutes_and_seconds(minutes: nat, seconds: nat, ticks: u32)
    requires
        seconds < 60,
        ticks as nat / SIM_HZ as nat == minutes * 60 + seconds,
    ensures
        duration_shown(ticks) == text::dec(minutes) + ":"@ + text::dec2(seconds),
{
    let t = (minutes * 60 + seconds) as nat;
    assert(t / 60 == minutes && t % 60 == seconds);
}

} // verus!
