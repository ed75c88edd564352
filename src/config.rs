//! Room identities, cookies and the names that may become files.
use crate::error::CSError;
use crate::text::{
    blank, char_is_control, has_char, is_blank, is_control, push_char, to_owned_string,
};
use vstd::prelude::*;
use vstd::string::*;

verus! {

/// Characters that `sanitize_filename` refuses anywhere in a name.
pub open spec fn is_illegal(c: char) -> bool {
    c == '/' || c == '?' || c == '<' || c == '>' || c == '\\' || c == ':' || c == '*' || c == '|'
        || c == '"'
}

/// Text made of dots alone.
pub open spec fn all_dots(s: Seq<char>) -> bool {
    s.len() > 0 && forall|i: int| 0 <= i < s.len() ==> #[trigger] s[i] == '.'
}

/// Control characters that `sanitize_filename` refuses: U+0000 to U+001F
/// and U+0080 to U+009F (U+007F is accepted).
pub open spec fn name_control(c: char) -> bool {
    c <= '\u{1f}' || ('\u{80}' <= c <= '\u{9f}')
}

/// What holds of every name that `sanitize_filename::is_sanitized` accepts,
/// on every platform.
pub open spec fn sanitized_shape(s: Seq<char>) -> bool {
    &&& forall|i: int| 0 <= i < s.len() ==> !is_illegal(#[trigger] s[i]) && !name_control(s[i])
    &&& !all_dots(s)
}

/// `c` is the letter `lower` or its capital `upper`.
pub open spec fn either(c: char, lower: char, upper: char) -> bool {
    c == lower || c == upper
}

/// The device names that Windows reserves, in any case: `con`, `prn`,
/// `aux`, `nul`, `com0` to `com9`, `lpt0` to `lpt9`.
pub open spec fn reserved_stem(p: Seq<char>) -> bool {
    ||| p.len() == 3 && either(p[0], 'c', 'C') && either(p[1], 'o', 'O') && either(p[2], 'n', 'N')
    ||| p.len() == 3 && either(p[0], 'p', 'P') && either(p[1], 'r', 'R') && either(p[2], 'n', 'N')
    ||| p.len() == 3 && either(p[0], 'a', 'A') && either(p[1], 'u', 'U') && either(p[2], 'x', 'X')
    ||| p.len() == 3 && either(p[0], 'n', 'N') && either(p[1], 'u', 'U') && either(p[2], 'l', 'L')
    ||| p.len() == 4 && either(p[0], 'c', 'C') && either(p[1], 'o', 'O') && either(p[2], 'm', 'M')
        && '0' <= p[3] <= '9'
    ||| p.len() == 4 && either(p[0], 'l', 'L') && either(p[1], 'p', 'P') && either(p[2], 't', 'T')
        && '0' <= p[3] <= '9'
}

/// A reserved device name, alone or followed by an extension.
pub open spec fn windows_reserved(s: Seq<char>) -> bool {
    exists|k: int|
        (k == 3 || k == 4) && k <= s.len() && #[trigger] reserved_stem(s.subrange(0, k)) && (k
            == s.len() || s[k] == '.')
}

/// A name that `sanitize_filename::is_sanitized` accepts on every platform:
/// the shape above, at most 63 characters (so at most 252 bytes), no
/// Windows device name, and no trailing dot or space.
pub open spec fn portable_name(s: Seq<char>) -> bool {
    &&& s.len() > 0
    &&& s.len() <= 63
    &&& sanitized_shape(s)
    &&& !windows_reserved(s)
    &&& s.last() != '.'
    &&& s.last() != ' '
}

/// A name that can stand as one path segment.
pub open spec fn safe_name(s: Seq<char>) -> bool {
    s.len() > 0 && sanitized_shape(s)
}

/// Relies on `sanitize_filename::is_sanitized` (0.6): an accepted name holds
/// none of `/?<>\:*|"`, no character of U+0000 to U+001F or U+0080 to
/// U+009F, and is not made of dots alone. Beyond that it refuses names over
/// 255 bytes, and on Windows device names and names ending in a dot or a
/// space, so every `portable_name` is accepted.
#[verifier::external_body]
fn is_sanitized(name: &str) -> (r: bool)
    ensures
        r ==> sanitized_shape(name@),
        portable_name(name@) ==> r,
{
    sanitize_filename::is_sanitized(name)
}

/// A name that can be a file name in a directory of the engine: not empty,
/// accepted by `sanitize_filename`, and free of path separators.
pub fn is_sanitized_filename(name: &str) -> (r: bool)
    ensures
        r ==> safe_name(name@),
        portable_name(name@) ==> r,
        name@.len() == 0 ==> !r,
        name@.contains('/') || name@.contains('\\') ==> !r,
{
    if name.is_empty() {
        return false;
    }
    if !is_sanitized(name) {
        return false;
    }
    !has_char(name, '/') && !has_char(name, '\\')
}

/// The identity of a room: its code (`room_district_unused_floor`), its
/// area code and its building code.
#[derive(Clone, Debug, PartialEq, Eq, Hash, Default)]
pub struct RoomConfig {
    pub room_no: String,
    pub elcarea: i32,
    pub elcbuis: String,
}

impl RoomConfig {
    pub open spec fn spec_is_invalid(&self) -> bool {
        self.elcarea < 0 || self.room_no@.len() == 0 || self.elcbuis@.len() == 0
    }

    /// Two identities are the same key when their parts are equal.
    pub open spec fn same_as(&self, other: &RoomConfig) -> bool {
        self.room_no@ == other.room_no@ && self.elcarea == other.elcarea && self.elcbuis@
            == other.elcbuis@
    }

    /// The identity that is not set.
    pub fn empty() -> (r: RoomConfig)
        ensures
            r.room_no@.len() == 0,
            r.elcarea == 0,
            r.elcbuis@.len() == 0,
    {
        RoomConfig { room_no: String::new(), elcarea: 0, elcbuis: String::new() }
    }

    /// An identity with a negative area code or an empty part.
    pub fn is_invalid(&self) -> (r: bool)
        ensures
            r == self.spec_is_invalid(),
    {
        self.elcarea < 0 || self.room_no.as_str().is_empty() || self.elcbuis.as_str().is_empty()
    }

    pub fn same(&self, other: &RoomConfig) -> (r: bool)
        ensures
            r == self.same_as(other),
    {
        self.room_no == other.room_no && self.elcarea == other.elcarea && self.elcbuis
            == other.elcbuis
    }

    /// The name of the room's directory: `unknown` for a blank room code,
    /// the room code itself when it is a safe file name, and otherwise
    /// `InvalidRoomConfig`, decided before any directory exists.
    pub fn dir_name(&self) -> (r: Result<String, CSError>)
        ensures
            blank(self.room_no@) ==> (r matches Ok(n) && n@ == "unknown"@),
            !blank(self.room_no@) ==> match r {
                Ok(n) => n@ == self.room_no@ && safe_name(n@),
                Err(e) => e == CSError::InvalidRoomConfig,
            },
            (self.room_no@.contains('/') || self.room_no@.contains('\\')) && !blank(self.room_no@)
                ==> r == Err::<String, CSError>(CSError::InvalidRoomConfig),
            !blank(self.room_no@) && portable_name(self.room_no@) ==> (r matches Ok(n) && n@
                == self.room_no@),
    {
        if is_blank(self.room_no.as_str()) {
            Ok(to_owned_string("unknown"))
        } else if !is_sanitized_filename(self.room_no.as_str()) {
            Err(CSError::InvalidRoomConfig)
        } else {
            Ok(self.room_no.clone())
        }
    }
}

/// Characters removed from a cookie value: space, `"`, `,`, `;`, `\` and
/// control characters.
pub open spec fn cookie_unsafe(c: char) -> bool {
    c == ' ' || c == '"' || c == ',' || c == ';' || c == '\\' || is_control(c)
}

/// The characters of a cookie value that may stand in a `Cookie` header.
pub open spec fn cookie_clean(s: Seq<char>) -> Seq<char> {
    s.filter(|c: char| !cookie_unsafe(c))
}

/// The first five characters of a secret, then `...`.
pub open spec fn masked(s: Seq<char>) -> Seq<char> {
    s.subrange(0, if s.len() < 5 { s.len() as int } else { 5 }) + "..."@
}

fn push_masked(out: &mut String, s: &str)
    ensures
        final(out)@ == old(out)@ + masked(s@),
{
    let ghost start = out@;
    let n = s.unicode_len();
    let k = if n < 5 { n } else { 5 };
    let mut i: usize = 0;
    while i < k
        invariant
            i <= k,
            k <= n,
            n == s@.len(),
            k == (if n < 5 { n } else { 5 }),
            out@ == start + s@.subrange(0, i as int),
        decreases k - i,
    {
        push_char(out, s.get_char(i));
        i = i + 1;
        assert(out@ =~= start + s@.subrange(0, i as int));
    }
    out.append("...");
    assert(out@ =~= start + masked(s@));
}

/// The session of the external site: its session id, its cookie and its
/// CSRF token. It has no `Debug`: `redacted` shows it without its secrets.
#[derive(Clone, Default)]
pub struct Cookies {
    pub j_session_id: String,
    pub cookie: String,
    pub x_csrf_token: String,
}

impl Cookies {
    /// No session.
    pub fn empty() -> (r: Cookies)
        ensures
            r.j_session_id@.len() == 0,
            r.cookie@.len() == 0,
            r.x_csrf_token@.len() == 0,
    {
        Cookies { j_session_id: String::new(), cookie: String::new(), x_csrf_token: String::new() }
    }

    /// A cookie value without the characters that break a `Cookie` header.
    pub fn cookie_sanitize(content: &str) -> (r: String)
        ensures
            r@ == cookie_clean(content@),
    {
        let n = content.unicode_len();
        let mut r = String::new();
        let mut i: usize = 0;
        proof {
            reveal(Seq::filter);
            assert(content@.subrange(0, 0) =~= Seq::<char>::empty());
        }
        while i < n
            invariant
                i <= n,
                n == content@.len(),
                r@ == cookie_clean(content@.subrange(0, i as int)),
            decreases n - i,
        {
            let c = content.get_char(i);
            proof {
                reveal(Seq::filter);
                assert(content@.subrange(0, i as int + 1).drop_last() =~= content@.subrange(
                    0,
                    i as int,
                ));
            }
            if !(c == ' ' || c == '"' || c == ',' || c == ';' || c == '\\' || char_is_control(c)) {
                push_char(&mut r, c);
            }
            i = i + 1;
        }
        proof {
            assert(content@.subrange(0, n as int) =~= content@);
        }
        r
    }

    /// The session for logs: each value cut to its first five characters.
    pub fn redacted(&self) -> (r: String)
        ensures
            r@ == "Cookies { j_session_id: "@ + masked(self.j_session_id@) + ", cookie: "@ + masked(
                self.cookie@,
            ) + ", x_csrf_token: "@ + masked(self.x_csrf_token@) + " }"@,
    {
        let mut r = String::from_str("Cookies { j_session_id: ");
        push_masked(&mut r, self.j_session_id.as_str());
        r.append(", cookie: ");
        push_masked(&mut r, self.cookie.as_str());
        r.append(", x_csrf_token: ");
        push_masked(&mut r, self.x_csrf_token.as_str());
        r.append(" }");
        r
    }

    /// The session with its id and cookie cleaned; the token is kept as is.
    pub fn sanitize(&self) -> (r: Cookies)
        ensures
            r.cookie@ == cookie_clean(self.cookie@),
            r.j_session_id@ == cookie_clean(self.j_session_id@),
            r.x_csrf_token@ == self.x_csrf_token@,
    {
        Cookies {
            cookie: Cookies::cookie_sanitize(self.cookie.as_str()),
            j_session_id: Cookies::cookie_sanitize(self.j_session_id.as_str()),
            x_csrf_token: self.x_csrf_token.clone(),
        }
    }
}

} // verus!
