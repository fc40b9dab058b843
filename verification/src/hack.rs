use vstd::prelude::*;
use vstd::string::StringExecFns;
use vstd::string::StrSliceExecFns;

pub mod proc_man;

verus! {

/// Whether the shell may load its command history from files.
pub const ALLOW_LOADING_HISTORY_FROM_FILES: bool = false;

/// Component shared by the names of all of the shell's sockets.
pub const ADDRESS_PREFIX: &'static str = "57b8ce61-d64293cc-da5ed9e2-d8458614";

/// Separator between the components of a socket name (the path separator of the
/// platforms with abstract socket names).
pub const SEPARATOR: &'static str = "/";

/// Prefix of the names the shell makes up for its own short-lived sockets.
pub const AUTO_PREFIX: &'static str = "auto/";

/// The decimal digit `d`.
pub open spec fn digit_char(d: nat) -> char {
    if d == 0 { '0' }
    else if d == 1 { '1' }
    else if d == 2 { '2' }
    else if d == 3 { '3' }
    else if d == 4 { '4' }
    else if d == 5 { '5' }
    else if d == 6 { '6' }
    else if d == 7 { '7' }
    else if d == 8 { '8' }
    else { '9' }
}

/// Decimal notation of `n`, without leading zeros.
pub open spec fn decimal(n: nat) -> Seq<char>
    decreases n,
{
    if n < 10 {
        seq![digit_char(n)]
    } else {
        decimal(n / 10) + seq![digit_char(n % 10)]
    }
}

/// Name of the socket `id` of the process `process_id`.
pub open spec fn address_spec(process_id: nat, id: Seq<char>) -> Seq<char> {
    decimal(process_id) + SEPARATOR@ + ADDRESS_PREFIX@ + SEPARATOR@ + id
}

/// Whether `char::is_whitespace` holds of `c` (the Unicode White_Space property).
pub uninterp spec fn char_is_whitespace(c: char) -> bool;

/// `s[start..end]` is the first run of characters that are not white space in `s`.
pub open spec fn first_word_bounds(s: Seq<char>, start: int, end: int) -> bool {
    &&& 0 <= start < end <= s.len()
    &&& forall|j: int| 0 <= j < start ==> char_is_whitespace(#[trigger] s[j])
    &&& forall|j: int| start <= j < end ==> !char_is_whitespace(#[trigger] s[j])
    &&& end == s.len() || char_is_whitespace(s[end])
}

/// Whether `s` holds only white space.
pub open spec fn all_whitespace(s: Seq<char>) -> bool {
    forall|j: int| 0 <= j < s.len() ==> char_is_whitespace(#[trigger] s[j])
}

/// `s[start..end]` is what is left of `s` once white space is cut from both ends.
pub open spec fn trimmed_bounds(s: Seq<char>, start: int, end: int) -> bool {
    &&& 0 <= start <= end <= s.len()
    &&& forall|j: int| 0 <= j < start ==> char_is_whitespace(#[trigger] s[j])
    &&& forall|j: int| end <= j < s.len() ==> char_is_whitespace(#[trigger] s[j])
    &&& start < end ==> !char_is_whitespace(s[start]) && !char_is_whitespace(s[end - 1])
}

/// Calls `char::is_whitespace`; the result is named by `char_is_whitespace`.
#[verifier::external_body]
fn is_whitespace(c: char) -> (r: bool)
    ensures
        r == char_is_whitespace(c),
{
    c.is_whitespace()
}

fn digit_str(d: u64) -> (s: &'static str)
    requires
        d < 10,
    ensures
        s@ == seq![digit_char(d as nat)],
{
    if d == 0 {
        proof { reveal_strlit("0"); }
        "0"
    } else if d == 1 {
        proof { reveal_strlit("1"); }
        "1"
    } else if d == 2 {
        proof { reveal_strlit("2"); }
        "2"
    } else if d == 3 {
        proof { reveal_strlit("3"); }
        "3"
    } else if d == 4 {
        proof { reveal_strlit("4"); }
        "4"
    } else if d == 5 {
        proof { reveal_strlit("5"); }
        "5"
    } else if d == 6 {
        proof { reveal_strlit("6"); }
        "6"
    } else if d == 7 {
        proof { reveal_strlit("7"); }
        "7"
    } else if d == 8 {
        proof { reveal_strlit("8"); }
        "8"
    } else {
        proof { reveal_strlit("9"); }
        "9"
    }
}

pub(crate) fn push_decimal(out: &mut String, n: u64)
    ensures
        final(out)@ == old(out)@ + decimal(n as nat),
    decreases n,
{
    if n >= 10 {
        push_decimal(out, n / 10);
    }
    out.append(digit_str(n % 10));
    assert(decimal(n as nat) == if n < 10 { seq![digit_char(n as nat)] } else { decimal((n / 10) as nat) + seq![digit_char((n % 10) as nat)] });
}

/// The socket name `id` of the process `process_id`:
/// `<process_id>/<ADDRESS_PREFIX>/<id>`.
pub fn form_address_with(process_id: u32, id: &str) -> (a: String)
    ensures
        a@ == address_spec(process_id as nat, id@),
{
    let mut a = String::new();
    push_decimal(&mut a, process_id as u64);
    a.append(SEPARATOR);
    a.append(ADDRESS_PREFIX);
    a.append(SEPARATOR);
    a.append(id);
    a
}

/// Id of the `n`-th socket that the shell names for itself: `auto/<n>`.
pub fn auto_socket_id(n: u64) -> (id: String)
    ensures
        id@ == AUTO_PREFIX@ + decimal(n as nat),
{
    let mut id = String::new();
    id.append(AUTO_PREFIX);
    push_decimal(&mut id, n);
    id
}

/// The command name in a command line: its first whitespace-separated word, as
/// `split_whitespace().next()` gives it; `None` for a line of white space only.
pub fn command_name(cmd: &str) -> (name: Option<String>)
    ensures
        match name {
            None => all_whitespace(cmd@),
            Some(w) => exists|start: int, end: int|
                first_word_bounds(cmd@, start, end) && w@ == cmd@.subrange(start, end),
        },
{
    let n = cmd.unicode_len();
    let mut start: usize = 0;
    while start < n && is_whitespace(cmd.get_char(start))
        invariant
            n == cmd@.len(),
            start <= n,
            forall|j: int| 0 <= j < start ==> char_is_whitespace(#[trigger] cmd@[j]),
        decreases n - start,
    {
        start += 1;
    }
    if start == n {
        return None;
    }
    let mut end: usize = start + 1;
    while end < n && !is_whitespace(cmd.get_char(end))
        invariant
            n == cmd@.len(),
            start < end <= n,
            !char_is_whitespace(cmd@[start as int]),
            forall|j: int| start <= j < end ==> !char_is_whitespace(#[trigger] cmd@[j]),
        decreases n - end,
    {
        end += 1;
    }
    let word = cmd.substring_char(start, end).to_string();
    assert(first_word_bounds(cmd@, start as int, end as int));
    if word.as_str().is_empty() {
        return None;
    }
    Some(word)
}

/// The socket name of the boss process, as its environment variable gives it: the value
/// with white space cut from both ends, as `str::trim` does.
pub fn boss_address_name(value: &str) -> (name: String)
    ensures
        exists|start: int, end: int|
            trimmed_bounds(value@, start, end) && name@ == value@.subrange(start, end),
{
    let n = value.unicode_len();
    let mut start: usize = 0;
    while start < n && is_whitespace(value.get_char(start))
        invariant
            n == value@.len(),
            start <= n,
            forall|j: int| 0 <= j < start ==> char_is_whitespace(#[trigger] value@[j]),
        decreases n - start,
    {
        start += 1;
    }
    let mut end: usize = n;
    while end > start && is_whitespace(value.get_char(end - 1))
        invariant
            n == value@.len(),
            start <= end <= n,
            start < n ==> !char_is_whitespace(value@[start as int]),
            start == n ==> end == n,
            forall|j: int| end <= j < n ==> char_is_whitespace(#[trigger] value@[j]),
        decreases end - start,
    {
        end -= 1;
    }
    let name = value.substring_char(start, end).to_string();
    assert(trimmed_bounds(value@, start as int, end as int));
    name
}

/// The bytes that announce process `pid` to the boss process: `pid` in little-endian
/// order, as `u32::to_le_bytes` gives them.
pub fn pid_le_bytes(pid: u32) -> (b: [u8; 4])
    ensures
        b@ == seq![
            (pid % 256) as u8,
            (pid / 256 % 256) as u8,
            (pid / 65536 % 256) as u8,
            (pid / 16777216) as u8,
        ],
{
    let b = [
        (pid % 256) as u8,
        (pid / 256 % 256) as u8,
        (pid / 65536 % 256) as u8,
        (pid / 16777216) as u8,
    ];
    assert(b@ =~= seq![
        (pid % 256) as u8,
        (pid / 256 % 256) as u8,
        (pid / 65536 % 256) as u8,
        (pid / 16777216) as u8,
    ]);
    b
}

/// How one attempt to send the registration to the status server went.
#[derive(Debug, Clone, Copy, PartialEq, Eq, Structural)]
pub enum SendOutcome {
    /// The request went out.
    Sent,
    /// The server refused the connection (it may not be up yet).
    Refused,
    /// Any other failure.
    Failed,
}

/// What a watcher does after one attempt to register with the status server.
#[derive(Debug, Clone, Copy, PartialEq, Eq, Structural)]
pub enum RegisterAction {
    /// Registered: stop trying.
    Done,
    /// Pause, then try again while the deadline allows.
    PauseAndRetry,
    /// Give up with the failure.
    Fail,
}

/// The next step of a watcher's registration with the status server: done once sent,
/// another try after a refusal, and failure on any other error.
pub fn register_step(sent: SendOutcome) -> (a: RegisterAction)
    ensures
        a == match sent {
            SendOutcome::Sent => RegisterAction::Done,
            SendOutcome::Refused => RegisterAction::PauseAndRetry,
            SendOutcome::Failed => RegisterAction::Fail,
        },
{
    match sent {
        SendOutcome::Sent => RegisterAction::Done,
        SendOutcome::Refused => RegisterAction::PauseAndRetry,
        SendOutcome::Failed => RegisterAction::Fail,
    }
}

/// Whether a wait that began `elapsed_ns` nanoseconds ago may go on when it is allowed
/// `limit_ns`: only while the clock shows no more than the limit (`None`, a clock that
/// went backwards, ends it).
pub fn wait_goes_on(elapsed_ns: Option<u128>, limit_ns: u128) -> (r: bool)
    ensures
        r == (elapsed_ns matches Some(e) && e <= limit_ns),
{
    match elapsed_ns {
        Some(e) => e <= limit_ns,
        None => false,
    }
}

/// Whether a wait that began `elapsed_ns` nanoseconds ago has run out its `limit_ns`:
/// once the clock shows the limit or more, or went backwards (`None`).
pub fn wait_timed_out(elapsed_ns: Option<u128>, limit_ns: u128) -> (r: bool)
    ensures
        r == (elapsed_ns matches Some(e) ==> e >= limit_ns),
{
    match elapsed_ns {
        Some(e) => e >= limit_ns,
        None => true,
    }
}

proof fn lemma_decimal_has_digits_only(n: nat)
    ensures
        decimal(n).len() >= 1,
        n >= 10 ==> decimal(n).len() >= 2,
        forall|i: int| 0 <= i < decimal(n).len() ==> #[trigger] decimal(n)[i] != '/',
    decreases n,
{
    if n >= 10 {
        lemma_decimal_has_digits_only(n / 10);
    }
}

proof fn lemma_decimal_is_injective(a: nat, b: nat)
    requires
        decimal(a) == decimal(b),
    ensures
        a == b,
    decreases a,
{
    lemma_decimal_has_digits_only(a);
    lemma_decimal_has_digits_only(b);
    if a >= 10 && b >= 10 {
        let da = decimal(a);
        let db = decimal(b);
        assert(da.drop_last() =~= decimal(a / 10));
        assert(db.drop_last() =~= decimal(b / 10));
        lemma_decimal_is_injective(a / 10, b / 10);
        assert(da.last() == digit_char(a % 10));
        assert(db.last() == digit_char(b % 10));
    } else if a < 10 && b < 10 {
        assert(decimal(a)[0] == digit_char(a));
        assert(decimal(b)[0] == digit_char(b));
    }
}

/// Law: each pair of a process and a socket id gets a socket name of its own.
pub proof fn law_addresses_are_distinct(p1: nat, id1: Seq<char>, p2: nat, id2: Seq<char>)
    requires
        p1 != p2 || id1 != id2,
    ensures
        address_spec(p1, id1) != address_spec(p2, id2),
{
    reveal_strlit("/");
    if address_spec(p1, id1) == address_spec(p2, id2) {
        let a = address_spec(p1, id1);
        let d1 = decimal(p1);
        let d2 = decimal(p2);
        lemma_decimal_has_digits_only(p1);
        lemma_decimal_has_digits_only(p2);
        assert(a[d1.len() as int] == '/');
        assert(address_spec(p2, id2)[d2.len() as int] == '/');
        if d1.len() < d2.len() {
            assert(address_spec(p2, id2)[d1.len() as int] == d2[d1.len() as int]);
            assert(false);
        } else if d2.len() < d1.len() {
            assert(a[d2.len() as int] == d1[d2.len() as int]);
            assert(false);
        }
        assert(d1 =~= a.subrange(0, d1.len() as int));
        assert(d2 =~= address_spec(p2, id2).subrange(0, d2.len() as int));
        lemma_decimal_is_injective(p1, p2);
        let rest = SEPARATOR@ + ADDRESS_PREFIX@ + SEPARATOR@;
        let k = d1.len() + rest.len();
        assert(id1 =~= a.subrange(k as int, a.len() as int));
        assert(id2 =~= address_spec(p2, id2).subrange(k as int, a.len() as int));
    }
}

/// Law: the four bytes put back together in little-endian order give the process id.
pub proof fn law_pid_bytes_round_trip(pid: u32)
    ensures
        (pid % 256) + 256 * (pid / 256 % 256) + 65536 * (pid / 65536 % 256) + 16777216 * (pid / 16777216) == pid,
{
    assert((pid % 256) + 256 * (pid / 256 % 256) + 65536 * (pid / 65536 % 256) + 16777216 * (pid / 16777216) == pid) by (nonlinear_arith);
}

} // verus!
