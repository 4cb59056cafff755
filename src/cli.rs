//! The command line of the load generator: options, defaults and the range
//! of connection counts it accepts.
use vstd::prelude::*;

verus! {

/// The most connections a run may open: each takes a local port, and a margin
/// is kept below the 65536 ports of a loopback interface.
pub const MAX_CONNECTIONS: u64 = 65536 - 10;

pub const DEFAULT_CONNECTIONS: u16 = 512;

pub const DEFAULT_REQUESTS: u64 = 100_000;

pub const DEFAULT_TARGET_URI: &'static str = "http://localhost:8080/person";

pub const CONNECTION_RANGE_ERROR: &'static str = "Number of connection not in range 1-65526";

pub open spec fn is_digit(c: char) -> bool {
    '0' <= c && c <= '9'
}

pub open spec fn digit_value(c: char) -> nat {
    (c as u32 - '0' as u32) as nat
}

pub open spec fn all_digits(s: Seq<char>) -> bool {
    forall|i: int| 0 <= i < s.len() ==> is_digit(#[trigger] s[i])
}

/// The number that a string of decimal digits denotes.
pub open spec fn digits_value(s: Seq<char>) -> nat
    decreases s.len(),
{
    if s.len() == 0 {
        0
    } else {
        digits_value(s.drop_last()) * 10 + digit_value(s.last())
    }
}

/// The digits of an unsigned number's text, after an optional `+`.
pub open spec fn unsigned_body(s: Seq<char>) -> Seq<char> {
    if s.len() > 0 && s[0] == '+' {
        s.drop_first()
    } else {
        s
    }
}

/// The unsigned decimal number that `s` spells (an optional `+`, then at
/// least one digit), if it spells one.
pub open spec fn unsigned_value(s: Seq<char>) -> Option<nat> {
    let b = unsigned_body(s);
    if b.len() > 0 && all_digits(b) {
        Some(digits_value(b))
    } else {
        None
    }
}

proof fn lemma_prefix_value_le(b: Seq<char>, j: int)
    requires
        all_digits(b),
        0 <= j <= b.len(),
    ensures
        digits_value(b.subrange(0, j)) <= digits_value(b),
    decreases b.len() - j,
{
    if j < b.len() {
        lemma_prefix_value_le(b, j + 1);
        assert(b.subrange(0, j + 1).drop_last() =~= b.subrange(0, j));
    } else {
        assert(b.subrange(0, j) =~= b);
    }
}

/// The unsigned decimal number that `s` spells, if it spells one that does
/// not exceed `limit`.
pub fn parse_unsigned(s: &str, limit: u64) -> (r: Option<u64>)
    ensures
        r is Some <==> (unsigned_value(s@) matches Some(v) && v <= limit),
        r matches Some(v) ==> unsigned_value(s@) == Some(v as nat),
{
    let n = s.unicode_len();
    let mut start: usize = 0;
    if n > 0 && s.get_char(0) == '+' {
        start = 1;
    }
    let ghost b = unsigned_body(s@);
    assert(b =~= s@.subrange(start as int, n as int));
    if start >= n {
        return None;
    }
    let mut value: u64 = 0;
    let mut i: usize = start;
    assert(b.subrange(0, 0) =~= Seq::<char>::empty());
    while i < n
        invariant
            start <= i <= n,
            n == s@.len(),
            b =~= s@.subrange(start as int, n as int),
            b == unsigned_body(s@),
            all_digits(b.subrange(0, i - start)),
            value == digits_value(b.subrange(0, i - start)),
            value <= limit,
        decreases n - i,
    {
        let c = s.get_char(i);
        assert(b[i - start] == c);
        if !('0' <= c && c <= '9') {
            assert(!is_digit(b[i - start]));
            return None;
        }
        let d = (c as u32 - '0' as u32) as u64;
        let ghost next = b.subrange(0, i - start + 1);
        assert(next.drop_last() =~= b.subrange(0, i - start));
        assert(next.last() == c);
        assert(all_digits(next));
        if d > limit || value > (limit - d) / 10 {
            proof {
                let v = value as int;
                let dd = d as int;
                let lim = limit as int;
                if d <= limit {
                    let q = (lim - dd) / 10;
                    assert(q * 10 + (lim - dd) % 10 == lim - dd);
                    assert((lim - dd) % 10 < 10);
                    assert(v >= q + 1);
                    assert(v * 10 >= q * 10 + 10) by (nonlinear_arith)
                        requires
                            v >= q + 1,
                    ;
                }
                assert(digits_value(next) == v * 10 + dd);
                assert(digits_value(next) > limit);
                if all_digits(b) {
                    lemma_prefix_value_le(b, i - start + 1);
                    assert(digits_value(b) > limit);
                }
            }
            return None;
        }
        assert(value * 10 + d <= limit) by (nonlinear_arith)
            requires
                value <= (limit - d) / 10,
                d <= limit,
        ;
        value = value * 10 + d;
        i = i + 1;
    }
    assert(b.subrange(0, n - start) =~= b);
    Some(value)
}

/// Reads a connection count: an unsigned decimal number from 1 to
/// `MAX_CONNECTIONS`.
pub fn connection_in_range(s: &str) -> (r: Result<u16, String>)
    ensures
        r is Ok <==> (unsigned_value(s@) matches Some(v) && 1 <= v <= MAX_CONNECTIONS),
        r matches Ok(n) ==> unsigned_value(s@) == Some(n as nat),
        r matches Err(e) ==> e@ == CONNECTION_RANGE_ERROR@,
{
    match parse_unsigned(s, MAX_CONNECTIONS) {
        Some(n) if n >= 1 => Ok(n as u16),
        _ => Err(String::from_str(CONNECTION_RANGE_ERROR)),
    }
}

/// Whether `a` and `b` hold the same characters.
fn same_text(a: &str, b: &str) -> (r: bool)
    ensures
        r == (a@ == b@),
{
    let n = a.unicode_len();
    if n != b.unicode_len() {
        return false;
    }
    let mut i: usize = 0;
    while i < n
        invariant
            0 <= i <= n,
            n == a@.len(),
            n == b@.len(),
            a@.subrange(0, i as int) == b@.subrange(0, i as int),
        decreases n - i,
    {
        if a.get_char(i) != b.get_char(i) {
            return false;
        }
        assert(a@.subrange(0, i + 1) =~= a@.subrange(0, i as int).push(a@[i as int]));
        assert(b@.subrange(0, i + 1) =~= b@.subrange(0, i as int).push(b@[i as int]));
        i = i + 1;
    }
    assert(a@ =~= a@.subrange(0, n as int));
    assert(b@ =~= b@.subrange(0, n as int));
    true
}

/// The settings a command line asks for.
#[derive(Debug)]
pub struct Args {
    pub connections: u16,
    pub requests: u64,
    pub output_file: Option<String>,
    pub target_uri: String,
}

/// What a command line has set so far, and whether the target was given as
/// a bare argument.
pub struct ArgsModel {
    pub connections: u16,
    pub requests: u64,
    pub output_file: Option<Seq<char>>,
    pub target_uri: Seq<char>,
    pub positional: bool,
}

pub open spec fn default_model() -> ArgsModel {
    ArgsModel {
        connections: DEFAULT_CONNECTIONS,
        requests: DEFAULT_REQUESTS,
        output_file: None,
        target_uri: DEFAULT_TARGET_URI@,
        positional: false,
    }
}

pub open spec fn is_option(tok: Seq<char>, short: &str, long: &str) -> bool {
    tok == short@ || tok == long@
}

/// The grammar of the command line, read from token `i` on: `-c`/
/// `--connections N` (from 1 to `MAX_CONNECTIONS`), `-r`/`--requests N`,
/// `-o`/`--output-file PATH` and `-t`/`--target-uri URI`, each followed by its
/// value, and at most one bare argument, the target. A later option
/// overrides an earlier one; any other token that starts with `-` is refused.
pub open spec fn parse_tokens(tokens: Seq<&str>, i: nat, m: ArgsModel) -> Option<ArgsModel>
    decreases tokens.len() - i,
{
    if i >= tokens.len() {
        Some(m)
    } else {
        let tok = tokens[i as int]@;
        if is_option(tok, "-c", "--connections") || is_option(tok, "-r", "--requests")
            || is_option(tok, "-o", "--output-file") || is_option(tok, "-t", "--target-uri") {
            if i + 1 >= tokens.len() {
                None
            } else {
                let value = tokens[(i + 1) as int]@;
                if is_option(tok, "-c", "--connections") {
                    match unsigned_value(value) {
                        Some(v) => if 1 <= v <= MAX_CONNECTIONS {
                            parse_tokens(tokens, i + 2, ArgsModel { connections: v as u16, ..m })
                        } else {
                            None
                        },
                        None => None,
                    }
                } else if is_option(tok, "-r", "--requests") {
                    match unsigned_value(value) {
                        Some(v) => if v <= u64::MAX {
                            parse_tokens(tokens, i + 2, ArgsModel { requests: v as u64, ..m })
                        } else {
                            None
                        },
                        None => None,
                    }
                } else if is_option(tok, "-o", "--output-file") {
                    parse_tokens(tokens, i + 2, ArgsModel { output_file: Some(value), ..m })
                } else {
                    parse_tokens(tokens, i + 2, ArgsModel { target_uri: value, ..m })
                }
            }
        } else if tok.len() > 0 && tok[0] == '-' {
            None
        } else if m.positional {
            None
        } else {
            parse_tokens(tokens, i + 1, ArgsModel { target_uri: tok, positional: true, ..m })
        }
    }
}

impl Args {
    /// Whether these settings are those of the model `m`.
    pub open spec fn matches_model(&self, m: ArgsModel) -> bool {
        &&& self.connections == m.connections
        &&& self.requests == m.requests
        &&& self.target_uri@ == m.target_uri
        &&& match self.output_file {
            Some(f) => m.output_file == Some(f@),
            None => m.output_file is None,
        }
    }

    /// Reads a command line whose first token is the program's name; what an
    /// option does not set keeps its default.
    pub fn try_parse_from(argv: &[&str]) -> (r: Result<Args, String>)
        ensures
            r is Ok <==> parse_tokens(argv@, 1, default_model()) is Some,
            r matches Ok(a) ==> a.matches_model(parse_tokens(argv@, 1, default_model())->0),
    {
        let ghost goal = parse_tokens(argv@, 1, default_model());
        let mut connections: u16 = DEFAULT_CONNECTIONS;
        let mut requests: u64 = DEFAULT_REQUESTS;
        let mut output_file: Option<String> = None;
        let mut target_uri: String = String::from_str(DEFAULT_TARGET_URI);
        let mut positional = false;
        let mut i: usize = 1;
        if argv.len() == 0 {
            return Ok(Args { connections, requests, output_file, target_uri });
        }
        while i < argv.len()
            invariant
                1 <= i <= argv@.len(),
                goal == parse_tokens(argv@, 1, default_model()),
                goal == parse_tokens(
                    argv@,
                    i as nat,
                    ArgsModel {
                        connections,
                        requests,
                        output_file: match output_file {
                            Some(f) => Some(f@),
                            None => None,
                        },
                        target_uri: target_uri@,
                        positional,
                    },
                ),
            decreases argv@.len() - i,
        {
            let tok = argv[i];
            let is_c = same_text(tok, "-c") || same_text(tok, "--connections");
            let is_r = same_text(tok, "-r") || same_text(tok, "--requests");
            let is_o = same_text(tok, "-o") || same_text(tok, "--output-file");
            let is_t = same_text(tok, "-t") || same_text(tok, "--target-uri");
            if is_c || is_r || is_o || is_t {
                if i + 1 >= argv.len() {
                    return Err(String::from_str("an option is missing its value"));
                }
                let value = argv[i + 1];
                if is_c {
                    match connection_in_range(value) {
                        Ok(n) => {
                            connections = n;
                        },
                        Err(e) => {
                            return Err(e);
                        },
                    }
                } else if is_r {
                    match parse_unsigned(value, u64::MAX) {
                        Some(n) => {
                            requests = n;
                        },
                        None => {
                            return Err(String::from_str("invalid number of requests"));
                        },
                    }
                } else if is_o {
                    output_file = Some(String::from_str(value));
                } else {
                    target_uri = String::from_str(value);
                }
                i = i + 2;
            } else if tok.unicode_len() > 0 && tok.get_char(0) == '-' {
                return Err(String::from_str("unexpected option"));
            } else if positional {
                return Err(String::from_str("unexpected argument"));
            } else {
                target_uri = String::from_str(tok);
                positional = true;
                i = i + 1;
            }
        }
        Ok(Args { connections, requests, output_file, target_uri })
    }
}

} // verus!
