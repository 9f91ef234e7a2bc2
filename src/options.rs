//! Configuration of the compiler, read once at start-up.
use vstd::prelude::*;

verus! {

/// Tunable settings of the compiler.
#[derive(Clone, Copy, PartialEq, Eq, Structural, Debug)]
pub struct Options {
    /// Size of the executable memory block to allocate, in MiB.
    pub exec_mem_size: usize,
    /// Number of method calls after which code is generated; 1 means
    /// compile on first execution.
    pub call_threshold: usize,
    /// Generate versions greedily until the limit is hit.
    pub greedy_versioning: bool,
    /// Disable the propagation of type information.
    pub no_type_prop: bool,
    /// Maximum number of versions per block; 1 means always generic versions.
    pub max_versions: usize,
    /// Capture and print out statistics.
    pub gen_stats: bool,
}

pub open spec fn default_options() -> Options {
    Options {
        exec_mem_size: 256,
        call_threshold: 10,
        greedy_versioning: false,
        no_type_prop: false,
        max_versions: 4,
        gen_stats: false,
    }
}

impl Default for Options {
    fn default() -> (r: Options)
        ensures
            r == default_options(),
    {
        Options {
            exec_mem_size: 256,
            call_threshold: 10,
            greedy_versioning: false,
            no_type_prop: false,
            max_versions: 4,
            gen_stats: false,
        }
    }
}

pub open spec fn is_digit(c: char) -> bool {
    '0' <= c && c <= '9'
}

pub open spec fn all_digits(s: Seq<char>) -> bool {
    forall|i: int| 0 <= i < s.len() ==> is_digit(#[trigger] s[i])
}

/// Value of a string of decimal digits.
pub open spec fn digits_value(s: Seq<char>) -> int
    decreases s.len(),
{
    if s.len() == 0 {
        0
    } else {
        digits_value(s.drop_last()) * 10 + (s.last() as int - '0' as int)
    }
}

/// The digits of an unsigned number, without its optional leading `+`.
pub open spec fn unsigned_digits(s: Seq<char>) -> Seq<char> {
    if s.len() > 0 && s[0] == '+' {
        s.drop_first()
    } else {
        s
    }
}

/// The `usize` that `s` denotes in decimal: an optional `+` and one or more
/// digits whose value fits.
pub open spec fn parse_usize_spec(s: Seq<char>) -> Option<usize> {
    let d = unsigned_digits(s);
    if d.len() > 0 && all_digits(d) && digits_value(d) <= usize::MAX {
        Some(digits_value(d) as usize)
    } else {
        None
    }
}

proof fn lemma_digits_value_nonneg(s: Seq<char>)
    requires
        all_digits(s),
    ensures
        digits_value(s) >= 0,
    decreases s.len(),
{
    if s.len() > 0 {
        lemma_digits_value_nonneg(s.drop_last());
    }
}

/// A prefix of a digit string is worth no more than the whole.
proof fn lemma_digits_value_prefix(s: Seq<char>, i: int)
    requires
        all_digits(s),
        0 <= i <= s.len(),
    ensures
        digits_value(s.subrange(0, i)) <= digits_value(s),
    decreases s.len(),
{
    if i < s.len() {
        let t = s.drop_last();
        assert(t.subrange(0, i) =~= s.subrange(0, i));
        lemma_digits_value_prefix(t, i);
        lemma_digits_value_nonneg(t);
        assert(is_digit(s[s.len() - 1]));
    } else {
        assert(s.subrange(0, i) =~= s);
    }
}

/// Parse a decimal `usize`, as `str::parse::<usize>` does.
pub fn parse_usize(s: &str) -> (r: Option<usize>)
    ensures
        r == parse_usize_spec(s@),
{
    let n: usize = s.unicode_len();
    let start: usize = if n > 0 && s.get_char(0) == '+' {
        1
    } else {
        0
    };
    let ghost d = unsigned_digits(s@);
    assert(d =~= s@.subrange(start as int, n as int));
    if start >= n {
        return None;
    }
    let mut i: usize = start;
    while i < n
        invariant
            start <= i <= n,
            n == s@.len(),
            d == s@.subrange(start as int, n as int),
            d == unsigned_digits(s@),
            forall|j: int| start <= j < i ==> is_digit(s@[j]),
        decreases n - i,
    {
        let c = s.get_char(i);
        if !('0' <= c && c <= '9') {
            assert(!is_digit(d[i - start]));
            return None;
        }
        i = i + 1;
    }
    assert(all_digits(d)) by {
        assert forall|j: int| 0 <= j < d.len() implies is_digit(#[trigger] d[j]) by {
            assert(d[j] == s@[j + start]);
        }
    }
    let mut acc: usize = 0;
    let mut i: usize = start;
    assert(d.subrange(0, 0) =~= Seq::<char>::empty());
    while i < n
        invariant
            start <= i <= n,
            n == s@.len(),
            d == s@.subrange(start as int, n as int),
            d == unsigned_digits(s@),
            all_digits(d),
            acc as int == digits_value(d.subrange(0, i - start)),
        decreases n - i,
    {
        let c = s.get_char(i);
        assert(c == d[i - start]);
        assert(is_digit(d[i - start]));
        let dv: usize = (c as u32 - '0' as u32) as usize;
        let ghost p = d.subrange(0, i + 1 - start);
        assert(p.drop_last() =~= d.subrange(0, i - start));
        assert(p.last() == c);
        assert(is_digit(d[i - start]));
        if acc > (usize::MAX - dv) / 10 {
            assert(acc * 10 + dv > usize::MAX) by (nonlinear_arith)
                requires
                    acc > (usize::MAX - dv) / 10,
                    dv <= 9,
            ;
            proof {
                lemma_digits_value_prefix(d, i + 1 - start);
            }
            return None;
        }
        assert(acc * 10 + dv <= usize::MAX) by (nonlinear_arith)
            requires
                acc <= (usize::MAX - dv) / 10,
                dv <= 9,
        ;
        acc = acc * 10 + dv;
        i = i + 1;
    }
    assert(d.subrange(0, i - start) =~= d);
    Some(acc)
}

/// Whether two strings are equal.
pub fn str_equal(a: &str, b: &str) -> (r: bool)
    ensures
        r == (a@ == b@),
{
    let n: usize = a.unicode_len();
    if n != b.unicode_len() {
        return false;
    }
    let mut i: usize = 0;
    while i < n
        invariant
            i <= n,
            n == a@.len(),
            n == b@.len(),
            forall|j: int| 0 <= j < i ==> a@[j] == b@[j],
        decreases n - i,
    {
        if a.get_char(i) != b.get_char(i) {
            return false;
        }
        i = i + 1;
    }
    assert(a@ =~= b@);
    true
}

/// Position of the first `=` in `s`, if any.
pub open spec fn first_eq(s: Seq<char>) -> Option<int> {
    if exists|i: int| 0 <= i < s.len() && s[i] == '=' {
        Some(
            choose|i: int|
                0 <= i < s.len() && s[i] == '=' && forall|j: int| 0 <= j < i ==> s[j] != '=',
        )
    } else {
        None
    }
}

/// Name of the option `s` sets: what stands before the first `=`, or all of
/// `s` if it has none.
pub open spec fn option_name(s: Seq<char>) -> Seq<char> {
    match first_eq(s) {
        Some(i) => s.subrange(0, i),
        None => s,
    }
}

/// Value given to the option: what follows the first `=`, or nothing.
pub open spec fn option_value(s: Seq<char>) -> Seq<char> {
    match first_eq(s) {
        Some(i) => s.subrange(i + 1, s.len() as int),
        None => Seq::empty(),
    }
}

/// Options after applying the setting `s` to `o`, or `None` when `s` is not
/// a recognized setting.
pub open spec fn apply_option(o: Options, s: Seq<char>) -> Option<Options> {
    let name = option_name(s);
    let val = option_value(s);
    if name == "exec-mem-size"@ {
        match parse_usize_spec(val) {
            Some(n) => Some(Options { exec_mem_size: n, ..o }),
            None => None,
        }
    } else if name == "call-threshold"@ {
        match parse_usize_spec(val) {
            Some(n) => Some(Options { call_threshold: n, ..o }),
            None => None,
        }
    } else if name == "max-versions"@ {
        match parse_usize_spec(val) {
            Some(n) => Some(Options { max_versions: n, ..o }),
            None => None,
        }
    } else if name == "greedy-versioning"@ && val.len() == 0 {
        Some(Options { greedy_versioning: true, ..o })
    } else if name == "no-type-prop"@ && val.len() == 0 {
        Some(Options { no_type_prop: true, ..o })
    } else if name == "stats"@ && val.len() == 0 {
        Some(Options { gen_stats: true, ..o })
    } else {
        None
    }
}

/// Apply to `options` one setting of the form `name` or `name=value`.
/// Returns whether it was recognized; an unrecognized setting changes
/// nothing.
pub fn parse_option(options: &mut Options, opt_str: &str) -> (r: bool)
    ensures
        r == apply_option(*old(options), opt_str@).is_some(),
        r ==> *final(options) == apply_option(*old(options), opt_str@).unwrap(),
        !r ==> *final(options) == *old(options),
{
    let n: usize = opt_str.unicode_len();
    let mut i: usize = 0;
    let mut found: bool = false;
    while i < n && !found
        invariant
            i <= n,
            n == opt_str@.len(),
            forall|j: int| 0 <= j < i ==> opt_str@[j] != '=',
            found ==> i < n && opt_str@[i as int] == '=',
        decreases n - i + (if found { 0int } else { 1int }),
    {
        if opt_str.get_char(i) == '=' {
            found = true;
        } else {
            i = i + 1;
        }
    }
    let name: &str;
    let val: &str;
    if found {
        proof {
            let s = opt_str@;
            assert(0 <= i < s.len() && s[i as int] == '=' && forall|j: int|
                0 <= j < i ==> s[j] != '=');
            let k = choose|k: int|
                0 <= k < s.len() && s[k] == '=' && forall|j: int| 0 <= j < k ==> s[j] != '=';
            assert(k == i) by {
                if k < i {
                    assert(s[k] != '=');
                } else if k > i {
                    assert(s[i as int] != '=');
                }
            }
        }
        assert(first_eq(opt_str@) == Some(i as int));
        name = opt_str.substring_char(0, i);
        val = opt_str.substring_char(i + 1, n);
    } else {
        assert(first_eq(opt_str@).is_none());
        name = opt_str;
        val = opt_str.substring_char(n, n);
    }
    assert(name@ == option_name(opt_str@));
    assert(val@ =~= option_value(opt_str@));
    if str_equal(name, "exec-mem-size") {
        match parse_usize(val) {
            Some(v) => {
                options.exec_mem_size = v;
            },
            None => {
                return false;
            },
        }
    } else if str_equal(name, "call-threshold") {
        match parse_usize(val) {
            Some(v) => {
                options.call_threshold = v;
            },
            None => {
                return false;
            },
        }
    } else if str_equal(name, "max-versions") {
        match parse_usize(val) {
            Some(v) => {
                options.max_versions = v;
            },
            None => {
                return false;
            },
        }
    } else if str_equal(name, "greedy-versioning") && val.unicode_len() == 0 {
        options.greedy_versioning = true;
    } else if str_equal(name, "no-type-prop") && val.unicode_len() == 0 {
        options.no_type_prop = true;
    } else if str_equal(name, "stats") && val.unicode_len() == 0 {
        options.gen_stats = true;
    } else {
        return false;
    }
    true
}

} // verus!
