//! Parsing of inbound text frames: whitespace trimming, the `/command arg`
//! split, dispatch to a chat command, and the builders for the outbound
//! notice strings.

use vstd::prelude::*;

verus! {

/// Characters treated as surrounding whitespace on inbound text frames:
/// the Unicode White_Space set.
pub open spec fn is_ws(c: char) -> bool {
    let u = c as u32;
    ||| u == 0x09
    ||| u == 0x0A
    ||| u == 0x0B
    ||| u == 0x0C
    ||| u == 0x0D
    ||| u == 0x20
    ||| u == 0x85
    ||| u == 0xA0
    ||| u == 0x1680
    ||| (0x2000 <= u && u <= 0x200A)
    ||| u == 0x2028
    ||| u == 0x2029
    ||| u == 0x202F
    ||| u == 0x205F
    ||| u == 0x3000
}

/// Length of the longest all-whitespace prefix of `s`.
pub open spec fn ws_prefix_len(s: Seq<char>) -> nat
    decreases s.len(),
{
    if s.len() > 0 && is_ws(s[0]) {
        1 + ws_prefix_len(s.drop_first())
    } else {
        0
    }
}

/// Length of the longest all-whitespace suffix of `s`.
pub open spec fn ws_suffix_len(s: Seq<char>) -> nat
    decreases s.len(),
{
    if s.len() > 0 && is_ws(s[s.len() - 1]) {
        1 + ws_suffix_len(s.drop_last())
    } else {
        0
    }
}

/// `s` with leading and trailing whitespace removed.
pub open spec fn trimmed(s: Seq<char>) -> Seq<char> {
    if ws_prefix_len(s) == s.len() {
        Seq::empty()
    } else {
        s.subrange(ws_prefix_len(s) as int, s.len() - ws_suffix_len(s))
    }
}

/// `ws_prefix_len` is the unique split point: everything before it is
/// whitespace and the character at it (if any) is not.
proof fn lemma_ws_prefix_unique(s: Seq<char>, i: int)
    requires
        0 <= i <= s.len(),
        forall|k: int| 0 <= k < i ==> is_ws(#[trigger] s[k]),
        i < s.len() ==> !is_ws(s[i]),
    ensures
        ws_prefix_len(s) == i,
    decreases s.len(),
{
    if i == 0 {
        if s.len() > 0 {
            assert(!is_ws(s[0]));
        }
    } else {
        assert(is_ws(s[0]));
        let rest = s.drop_first();
        assert forall|k: int| 0 <= k < i - 1 implies is_ws(#[trigger] rest[k]) by {
            assert(rest[k] == s[k + 1]);
        }
        if i - 1 < rest.len() {
            assert(rest[i - 1] == s[i]);
        }
        lemma_ws_prefix_unique(rest, i - 1);
    }
}

/// `ws_suffix_len` is the unique count of trailing whitespace characters.
proof fn lemma_ws_suffix_unique(s: Seq<char>, j: int)
    requires
        0 <= j <= s.len(),
        forall|k: int| s.len() - j <= k < s.len() ==> is_ws(#[trigger] s[k]),
        j < s.len() ==> !is_ws(s[s.len() - 1 - j]),
    ensures
        ws_suffix_len(s) == j,
    decreases s.len(),
{
    if j == 0 {
        if s.len() > 0 {
            assert(!is_ws(s[s.len() - 1]));
        }
    } else {
        assert(is_ws(s[s.len() - 1]));
        let rest = s.drop_last();
        assert forall|k: int| rest.len() - (j - 1) <= k < rest.len() implies is_ws(
            #[trigger] rest[k],
        ) by {
            assert(rest[k] == s[k]);
        }
        lemma_ws_suffix_unique(rest, j - 1);
    }
}

/// Whether `c` counts as whitespace for trimming.
fn is_ws_char(c: char) -> (b: bool)
    ensures
        b == is_ws(c),
{
    let u = c as u32;
    u == 0x09 || u == 0x0A || u == 0x0B || u == 0x0C || u == 0x0D || u == 0x20 || u == 0x85 || u
        == 0xA0 || u == 0x1680 || (0x2000 <= u && u <= 0x200A) || u == 0x2028 || u == 0x2029 || u
        == 0x202F || u == 0x205F || u == 0x3000
}

/// Strip leading and trailing whitespace from an inbound text frame.
pub fn trim(s: &str) -> (r: &str)
    ensures
        r@ == trimmed(s@),
{
    let n = s.unicode_len();
    let mut i: usize = 0;
    while i < n && is_ws_char(s.get_char(i))
        invariant
            0 <= i <= n,
            n == s@.len(),
            forall|k: int| 0 <= k < i ==> is_ws(#[trigger] s@[k]),
        decreases n - i,
    {
        i += 1;
    }
    proof {
        lemma_ws_prefix_unique(s@, i as int);
    }
    if i == n {
        let r = "";
        proof {
            reveal_strlit("");
            assert(r@ =~= trimmed(s@));
        }
        return r;
    }
    let mut j: usize = n;
    while j > i && is_ws_char(s.get_char(j - 1))
        invariant
            i < j <= n,
            n == s@.len(),
            i < n,
            !is_ws(s@[i as int]),
            forall|k: int| j <= k < n ==> is_ws(#[trigger] s@[k]),
        decreases j,
    {
        j -= 1;
    }
    proof {
        lemma_ws_suffix_unique(s@, n - j);
    }
    let r = s.substring_char(i, j);
    proof {
        assert(r@ =~= trimmed(s@));
    }
    r
}

/// Whether two strings hold the same characters.
pub fn str_eq(a: &str, b: &str) -> (r: bool)
    ensures
        r == (a@ == b@),
{
    let la = a.unicode_len();
    let lb = b.unicode_len();
    if la != lb {
        return false;
    }
    let mut i: usize = 0;
    while i < la
        invariant
            0 <= i <= la,
            la == a@.len(),
            la == b@.len(),
            forall|k: int| 0 <= k < i ==> a@[k] == b@[k],
        decreases la - i,
    {
        if a.get_char(i) != b.get_char(i) {
            return false;
        }
        i += 1;
    }
    proof {
        assert(a@ =~= b@);
    }
    true
}

/// Index of the first space in `s`, or `s.len()` if there is none.
pub open spec fn first_space(s: Seq<char>) -> nat
    decreases s.len(),
{
    if s.len() == 0 {
        0
    } else if s[0] == ' ' {
        0
    } else {
        1 + first_space(s.drop_first())
    }
}

/// The command word of a slash command: everything before the first space.
pub open spec fn head_word(s: Seq<char>) -> Seq<char> {
    s.subrange(0, first_space(s) as int)
}

/// The argument of a slash command: everything after the first space,
/// verbatim, or nothing when the text holds no space.
pub open spec fn tail_arg(s: Seq<char>) -> Option<Seq<char>> {
    if first_space(s) < s.len() {
        Some(s.subrange(first_space(s) as int + 1, s.len() as int))
    } else {
        None
    }
}

/// `first_space` is the unique index of the first space character.
proof fn lemma_first_space_unique(s: Seq<char>, i: int)
    requires
        0 <= i <= s.len(),
        forall|k: int| 0 <= k < i ==> #[trigger] s[k] != ' ',
        i < s.len() ==> s[i] == ' ',
    ensures
        first_space(s) == i,
    decreases s.len(),
{
    if i == 0 {
        if s.len() > 0 {
            assert(s[0] == ' ');
        }
    } else {
        assert(s[0] != ' ');
        let rest = s.drop_first();
        assert forall|k: int| 0 <= k < i - 1 implies #[trigger] rest[k] != ' ' by {
            assert(rest[k] == s[k + 1]);
        }
        if i - 1 < rest.len() {
            assert(rest[i - 1] == s[i]);
        }
        lemma_first_space_unique(rest, i - 1);
    }
}

/// Split a trimmed command line at its first space.
pub fn split_first_space(t: &str) -> (r: (&str, Option<&str>))
    ensures
        r.0@ == head_word(t@),
        r.1 is Some <==> tail_arg(t@) is Some,
        r.1 matches Some(a) ==> tail_arg(t@) matches Some(x) && a@ == x,
{
    let n = t.unicode_len();
    let mut i: usize = 0;
    while i < n && t.get_char(i) != ' '
        invariant
            0 <= i <= n,
            n == t@.len(),
            forall|k: int| 0 <= k < i ==> #[trigger] t@[k] != ' ',
        decreases n - i,
    {
        i += 1;
    }
    proof {
        lemma_first_space_unique(t@, i as int);
    }
    let head = t.substring_char(0, i);
    if i < n {
        let arg = t.substring_char(i + 1, n);
        (head, Some(arg))
    } else {
        (head, None)
    }
}

/// What a text frame asks the session to do, with its payload.
pub enum TextCommand {
    /// `/list`: report all room names back to this client.
    ListRooms,
    /// `/join <room>`: move this connection into `room`.
    Join { room: String },
    /// `/name <name>`: set the session's display name; no coordinator call.
    SetName { name: String },
    /// A malformed command: send `text` back to this client only.
    Notice { text: String },
    /// Plain chat text, already composed with the display name if one is set.
    Chat { composed: String },
}

/// Ghost-level image of a `TextCommand`, over character sequences.
pub enum TextCommandSpec {
    ListRooms,
    Join { room: Seq<char> },
    SetName { name: Seq<char> },
    Notice { text: Seq<char> },
    Chat { composed: Seq<char> },
}

/// The command a text frame denotes: trim, then dispatch on the leading `/`
/// word, else compose plain chat with the display name.
pub open spec fn dispatch_spec(text: Seq<char>, name: Option<Seq<char>>) -> TextCommandSpec {
    let t = trimmed(text);
    if t.len() > 0 && t[0] == '/' {
        let h = head_word(t);
        if h == "/list"@ {
            TextCommandSpec::ListRooms
        } else if h == "/join"@ {
            match tail_arg(t) {
                Some(a) => TextCommandSpec::Join { room: a },
                None => TextCommandSpec::Notice { text: "!!! room name is required"@ },
            }
        } else if h == "/name"@ {
            match tail_arg(t) {
                Some(a) => TextCommandSpec::SetName { name: a },
                None => TextCommandSpec::Notice { text: "!!! name is required"@ },
            }
        } else {
            TextCommandSpec::Notice { text: "!!! unknown command: "@ + t }
        }
    } else {
        match name {
            Some(n) => TextCommandSpec::Chat { composed: n + ": "@ + t },
            None => TextCommandSpec::Chat { composed: t },
        }
    }
}

/// Whether the executable command `c` carries the payloads of the ghost
/// command `s`.
pub open spec fn cmd_matches(c: TextCommand, s: TextCommandSpec) -> bool {
    match (c, s) {
        (TextCommand::ListRooms, TextCommandSpec::ListRooms) => true,
        (TextCommand::Join { room }, TextCommandSpec::Join { room: r }) => room@ == r,
        (TextCommand::SetName { name }, TextCommandSpec::SetName { name: n }) => name@ == n,
        (TextCommand::Notice { text }, TextCommandSpec::Notice { text: t }) => text@ == t,
        (TextCommand::Chat { composed }, TextCommandSpec::Chat { composed: m }) => composed@ == m,
        _ => false,
    }
}

/// View of an optional display name.
pub open spec fn opt_name_view(name: Option<String>) -> Option<Seq<char>> {
    match name {
        Some(n) => Some(n@),
        None => None,
    }
}

/// The notice echoed for a command word the session does not know.
pub fn unknown_notice(t: &str) -> (r: String)
    ensures
        r@ == "!!! unknown command: "@ + t@,
{
    let mut s = "!!! unknown command: ".to_owned();
    s.append(t);
    s
}

/// Prefix plain chat text with the display name, as `name: text`.
pub fn compose_chat(name: &str, t: &str) -> (r: String)
    ensures
        r@ == name@ + ": "@ + t@,
{
    let mut s = name.to_owned();
    s.append(": ");
    s.append(t);
    proof {
        assert(s@ =~= name@ + ": "@ + t@);
    }
    s
}

/// The confirmation sent back after a room join.
pub fn join_confirmation(room: &str) -> (r: String)
    ensures
        r@ == "joined "@ + room@,
{
    let mut s = "joined ".to_owned();
    s.append(room);
    s
}

/// Turn a trimmed text frame into the command it denotes.
pub fn dispatch(text: &str, name: &Option<String>) -> (r: TextCommand)
    ensures
        cmd_matches(r, dispatch_spec(text@, opt_name_view(*name))),
{
    let t = trim(text);
    let n = t.unicode_len();
    if n > 0 && t.get_char(0) == '/' {
        let (head, arg) = split_first_space(t);
        if str_eq(head, "/list") {
            TextCommand::ListRooms
        } else if str_eq(head, "/join") {
            match arg {
                Some(room) => TextCommand::Join { room: room.to_owned() },
                None => TextCommand::Notice { text: "!!! room name is required".to_owned() },
            }
        } else if str_eq(head, "/name") {
            match arg {
                Some(nm) => TextCommand::SetName { name: nm.to_owned() },
                None => TextCommand::Notice { text: "!!! name is required".to_owned() },
            }
        } else {
            TextCommand::Notice { text: unknown_notice(t) }
        }
    } else {
        match name {
            Some(nm) => TextCommand::Chat { composed: compose_chat(nm.as_str(), t) },
            None => TextCommand::Chat { composed: t.to_owned() },
        }
    }
}

/// The character for one decimal digit.
pub open spec fn digit_char(d: nat) -> char {
    if d == 0 {
        '0'
    } else if d == 1 {
        '1'
    } else if d == 2 {
        '2'
    } else if d == 3 {
        '3'
    } else if d == 4 {
        '4'
    } else if d == 5 {
        '5'
    } else if d == 6 {
        '6'
    } else if d == 7 {
        '7'
    } else if d == 8 {
        '8'
    } else {
        '9'
    }
}

/// The decimal rendering of `n`, most significant digit first.
pub open spec fn dec_str(n: nat) -> Seq<char>
    decreases n,
{
    if n < 10 {
        seq![digit_char(n)]
    } else {
        dec_str(n / 10).push(digit_char(n % 10))
    }
}

/// One decimal digit as a string.
fn digit_str(d: u64) -> (r: &'static str)
    requires
        d < 10,
    ensures
        r@ == seq![digit_char(d as nat)],
{
    proof {
        reveal_strlit("0");
        reveal_strlit("1");
        reveal_strlit("2");
        reveal_strlit("3");
        reveal_strlit("4");
        reveal_strlit("5");
        reveal_strlit("6");
        reveal_strlit("7");
        reveal_strlit("8");
        reveal_strlit("9");
    }
    let r: &'static str = if d == 0 {
        "0"
    } else if d == 1 {
        "1"
    } else if d == 2 {
        "2"
    } else if d == 3 {
        "3"
    } else if d == 4 {
        "4"
    } else if d == 5 {
        "5"
    } else if d == 6 {
        "6"
    } else if d == 7 {
        "7"
    } else if d == 8 {
        "8"
    } else {
        "9"
    };
    proof {
        assert(r@ =~= seq![digit_char(d as nat)]);
    }
    r
}

/// Render `n` in decimal.
pub fn u64_to_string(n: u64) -> (r: String)
    ensures
        r@ == dec_str(n as nat),
    decreases n,
{
    if n < 10 {
        digit_str(n).to_owned()
    } else {
        let mut s = u64_to_string(n / 10);
        s.append(digit_str(n % 10));
        proof {
            assert(s@ =~= dec_str(n as nat));
        }
        s
    }
}

/// The system notice reporting the visitor count to room members.
pub fn visitor_notice(count: u64) -> (r: String)
    ensures
        r@ == "Total visitors "@ + dec_str(count as nat),
{
    let mut s = "Total visitors ".to_owned();
    let num = u64_to_string(count);
    s.append(num.as_str());
    s
}

} // verus!
