//! Framing of the manager protocol: the version line sent on connect, and
//! messages that end with a blank line.

use vstd::prelude::*;
use vstd::string::*;
use vstd::utf8::*;

verus! {

broadcast use vstd::utf8::valid_utf8_concat;

#[verifier::external_type_specification]
#[verifier::external_body]
pub struct ExIoError(std::io::Error);

#[verifier::external_type_specification]
#[verifier::external_body]
pub struct ExUtf8Error(std::str::Utf8Error);

/// Everything that can go wrong in a manager-protocol connection.
#[derive(Debug)]
pub enum AmiError {
    /// unable to read bytes from the stream
    Read(std::io::Error),
    /// unable to write bytes to the stream
    Write(std::io::Error),
    /// a `\n` without a preceding `\r`
    IsolatedNewline,
    /// the bytes were not UTF-8
    NotUtf8(std::str::Utf8Error),
    /// a NUL byte came before the expected line or message end
    EofBeforeNeline,
    /// no `Response:` line was sent, but one was expected
    NoResponseLine,
    /// the action was executed and answered, but not with `Response: Success`
    ActionUnsuccessful,
    /// login was attempted but failed
    LoginFailure,
}

/// The text that describes each kind of error; those that carry a cause
/// continue with the cause's own text.
pub open spec fn error_text_start(e: &AmiError) -> Seq<char> {
    match e {
        AmiError::Read(_) => "Unable to read bytes from stream: "@,
        AmiError::Write(_) => "Unable to write bytes to stream: "@,
        AmiError::IsolatedNewline => "A \\n was encountered without a preceding \\r"@,
        AmiError::NotUtf8(_) => "The received bytes were not utf8: "@,
        AmiError::EofBeforeNeline => "There was a nullbyte before an expected newline"@,
        AmiError::NoResponseLine => "There was no Response: line, but one was expected."@,
        AmiError::ActionUnsuccessful => "Action was sent and response received, but the response was not Success."@,
        AmiError::LoginFailure => "Login was attempted but failed."@,
    }
}

/// Whether the error carries a cause whose text follows its own.
pub open spec fn has_cause(e: &AmiError) -> bool {
    e is Read || e is Write || e is NotUtf8
}

fn joined(start: &str, detail: String) -> (r: String)
    ensures
        r@ == start@ + detail@,
{
    let mut r = String::from_str(start);
    r.append(detail.as_str());
    r
}

impl AmiError {
    /// A description of the error, for people.
    pub fn message(&self) -> (r: String)
        ensures
            !has_cause(self) ==> r@ == error_text_start(self),
            has_cause(self) ==> r@.subrange(0, error_text_start(self).len() as int)
                == error_text_start(self),
    {
        let r = match self {
            AmiError::Read(x) => joined("Unable to read bytes from stream: ", x.to_string()),
            AmiError::Write(x) => joined("Unable to write bytes to stream: ", x.to_string()),
            AmiError::IsolatedNewline => String::from_str("A \\n was encountered without a preceding \\r"),
            AmiError::NotUtf8(x) => joined("The received bytes were not utf8: ", x.to_string()),
            AmiError::EofBeforeNeline => String::from_str("There was a nullbyte before an expected newline"),
            AmiError::NoResponseLine => String::from_str("There was no Response: line, but one was expected."),
            AmiError::ActionUnsuccessful => String::from_str(
                "Action was sent and response received, but the response was not Success.",
            ),
            AmiError::LoginFailure => String::from_str("Login was attempted but failed."),
        };
        proof {
            if has_cause(self) {
                let p = error_text_start(self);
                assert(r@.subrange(0, p.len() as int) =~= p);
            }
        }
        r
    }
}

impl From<std::str::Utf8Error> for AmiError {
    fn from(value: std::str::Utf8Error) -> Self {
        AmiError::NotUtf8(value)
    }
}

impl vstd::std_specs::convert::FromSpecImpl<std::str::Utf8Error> for AmiError {
    open spec fn obeys_from_spec() -> bool {
        true
    }

    open spec fn from_spec(v: std::str::Utf8Error) -> Self {
        AmiError::NotUtf8(v)
    }
}

pub const CR: u8 = 13;

pub const LF: u8 = 10;

pub const NUL: u8 = 0;

/// Relies on `std::str::from_utf8`: it accepts exactly the valid UTF-8
/// sequences and then yields the characters they encode.
#[verifier::external_body]
fn decode_text(b: &[u8]) -> (r: Result<String, std::str::Utf8Error>)
    ensures
        r is Ok <==> valid_utf8(b@),
        r matches Ok(s) ==> s@ == decode_utf8(b@),
{
    match std::str::from_utf8(b) {
        Ok(s) => Ok(s.to_owned()),
        Err(e) => Err(e),
    }
}

/// Position of the first `x` in `s`, or `s.len()` when there is none.
pub open spec fn index_of(s: Seq<u8>, x: u8) -> int
    decreases s.len(),
{
    if s.len() == 0 {
        0
    } else if s[0] == x {
        0
    } else {
        1 + index_of(s.drop_first(), x)
    }
}

pub proof fn lemma_index_of(s: Seq<u8>, x: u8)
    ensures
        0 <= index_of(s, x) <= s.len(),
        index_of(s, x) < s.len() ==> s[index_of(s, x)] == x,
        forall|j: int| 0 <= j < index_of(s, x) ==> s[j] != x,
    decreases s.len(),
{
    if s.len() > 0 && s[0] != x {
        lemma_index_of(s.drop_first(), x);
        assert forall|j: int| 0 <= j < index_of(s, x) implies s[j] != x by {
            if j > 0 {
                assert(s[j] == s.drop_first()[j - 1]);
            }
        }
    }
}

/// Finds the first `x` in `s`, or `s.len()`.
fn find_byte(s: &[u8], x: u8) -> (r: usize)
    ensures
        r == index_of(s@, x),
        r <= s@.len(),
{
    let mut i: usize = 0;
    while i < s.len()
        invariant
            i <= s@.len(),
            forall|j: int| 0 <= j < i ==> s@[j] != x,
        decreases s@.len() - i,
    {
        if s[i] == x {
            proof {
                lemma_index_of(s@, x);
            }
            return i;
        }
        i = i + 1;
    }
    proof {
        lemma_index_of(s@, x);
    }
    i
}

/// `s` holds the message terminator CR LF CR LF at `i`.
pub open spec fn term_at(s: Seq<u8>, i: int) -> bool {
    &&& 0 <= i
    &&& i + 4 <= s.len()
    &&& s[i] == CR
    &&& s[i + 1] == LF
    &&& s[i + 2] == CR
    &&& s[i + 3] == LF
}

/// Position of the first terminator in `s`, or `s.len()` when there is none.
pub open spec fn first_term(s: Seq<u8>) -> int
    decreases s.len(),
{
    if s.len() < 4 {
        s.len() as int
    } else if term_at(s, 0) {
        0
    } else {
        1 + first_term(s.drop_first())
    }
}

/// `s` holds a whole message.
pub open spec fn has_term(s: Seq<u8>) -> bool {
    first_term(s) < s.len()
}

pub proof fn lemma_first_term(s: Seq<u8>)
    ensures
        0 <= first_term(s) <= s.len(),
        first_term(s) < s.len() ==> term_at(s, first_term(s)),
        forall|j: int| 0 <= j < first_term(s) ==> !term_at(s, j),
        first_term(s) == s.len() ==> forall|j: int| !term_at(s, j),
    decreases s.len(),
{
    if s.len() >= 4 && !term_at(s, 0) {
        let t = s.drop_first();
        lemma_first_term(t);
        assert forall|j: int| 0 <= j < first_term(s) implies !term_at(s, j) by {
            if j > 0 {
                assert(term_at(s, j) == term_at(t, j - 1));
            }
        }
        if first_term(s) == s.len() {
            assert forall|j: int| !term_at(s, j) by {
                if j > 0 {
                    assert(term_at(s, j) == term_at(t, j - 1));
                }
            }
        }
        if first_term(s) < s.len() {
            assert(term_at(s, first_term(s)) == term_at(t, first_term(t)));
        }
    }
}

/// A terminator that lies within `s` is still the first one after more
/// bytes follow `s`.
pub proof fn lemma_first_term_extend(s: Seq<u8>, u: Seq<u8>)
    requires
        has_term(s),
    ensures
        first_term(s + u) == first_term(s),
{
    lemma_first_term(s);
    lemma_first_term(s + u);
    let k = first_term(s);
    assert(term_at(s + u, k));
    assert forall|j: int| 0 <= j < k implies !term_at(s + u, j) by {
        assert(term_at(s + u, j) == term_at(s, j));
    }
}

/// Finds the first terminator in `s`, or `s.len()`.
fn find_term(s: &Vec<u8>) -> (r: usize)
    ensures
        r == first_term(s@),
{
    let n = s.len();
    let mut i: usize = 0;
    while n >= 4 && i <= n - 4
        invariant
            n == s@.len(),
            i <= n,
            forall|j: int| 0 <= j < i ==> !term_at(s@, j),
        decreases n - i,
    {
        if s[i] == CR && s[i + 1] == LF && s[i + 2] == CR && s[i + 3] == LF {
            proof {
                assert(term_at(s@, i as int));
                lemma_first_term(s@);
            }
            return i;
        }
        i = i + 1;
    }
    proof {
        lemma_first_term(s@);
    }
    n
}

/// What one chunk of bytes does to a reader that waits for a message.
pub enum Framing {
    /// no message yet; the reader keeps these bytes
    Pending(Seq<u8>),
    /// a whole message, with the text it holds
    Message(Seq<char>),
    /// the bytes before the first NUL are not UTF-8
    NotText,
    /// a NUL came before the end of the message
    NulBeforeEnd,
}

/// The bytes of a message that ends in `w`: through the first CR LF of the
/// terminator.
pub open spec fn message_bytes(w: Seq<u8>) -> Seq<u8> {
    w.subrange(0, first_term(w) + 2)
}

/// One chunk `c` read while the reader holds `buf`. The chunk counts up to
/// its first NUL; that part must be text. A message ends at the first
/// CR LF CR LF in what is held and what came; a NUL before it ends the read.
pub open spec fn message_framing(buf: Seq<u8>, c: Seq<u8>) -> Framing {
    let p = c.subrange(0, index_of(c, NUL));
    let w = buf + p;
    if !valid_utf8(p) {
        Framing::NotText
    } else if has_term(w) {
        Framing::Message(decode_utf8(message_bytes(w)))
    } else if index_of(c, NUL) < c.len() {
        Framing::NulBeforeEnd
    } else {
        Framing::Pending(w)
    }
}

/// What one chunk of bytes does to a reader that waits for the version line.
pub enum LineFraming {
    /// no newline yet: this text belongs to the line, and whether the chunk
    /// ended with a CR that is held back
    Partial(Seq<char>, bool),
    /// the line ends in this chunk: the rest of the line, and the bytes after
    /// the newline, up to the first NUL
    Line(Seq<char>, Seq<u8>),
    /// a part of the chunk is not UTF-8
    NotText,
    /// a NUL came before the newline
    NulBeforeEnd,
    /// the newline does not follow a CR
    IsolatedNewline,
}

/// The CR held back from the end of the previous chunk, as text.
pub open spec fn held_cr(cr: bool) -> Seq<char> {
    if cr {
        "\r"@
    } else {
        Seq::empty()
    }
}

/// One chunk `c` read while the version line is awaited; `cr` tells whether
/// the previous chunk ended with a CR, which is held back until it is known
/// whether a newline follows it.
pub open spec fn line_framing(cr: bool, c: Seq<u8>) -> LineFraming {
    let n = index_of(c, LF);
    let z = index_of(c, NUL);
    if z < n {
        LineFraming::NulBeforeEnd
    } else if n < c.len() {
        let rest = c.subrange(n + 1, z);
        if n == 0 {
            if !cr {
                LineFraming::IsolatedNewline
            } else if !valid_utf8(rest) {
                LineFraming::NotText
            } else {
                LineFraming::Line(Seq::empty(), rest)
            }
        } else {
            let head = c.subrange(0, n - 1);
            if c[n - 1] != CR {
                LineFraming::IsolatedNewline
            } else if !valid_utf8(head) || !valid_utf8(rest) {
                LineFraming::NotText
            } else {
                LineFraming::Line(held_cr(cr) + decode_utf8(head), rest)
            }
        }
    } else if !valid_utf8(c) {
        LineFraming::NotText
    } else if c.len() == 0 {
        LineFraming::Partial(Seq::empty(), cr)
    } else if c.last() == CR {
        LineFraming::Partial(held_cr(cr) + decode_utf8(c.drop_last()), true)
    } else {
        LineFraming::Partial(held_cr(cr) + decode_utf8(c), false)
    }
}

/// Appends `b` to `v`.
fn push_all(v: &mut Vec<u8>, b: &[u8])
    ensures
        final(v)@ == old(v)@ + b@,
{
    let mut i: usize = 0;
    while i < b.len()
        invariant
            i <= b@.len(),
            v@ == old(v)@ + b@.subrange(0, i as int),
        decreases b@.len() - i,
    {
        v.push(b[i]);
        i = i + 1;
        assert(v@ =~= old(v)@ + b@.subrange(0, i as int));
    }
    assert(b@.subrange(0, i as int) =~= b@);
}

/// The message bytes in a valid text are valid text too.
proof fn lemma_message_bytes_valid(w: Seq<u8>)
    requires
        valid_utf8(w),
        has_term(w),
    ensures
        valid_utf8(message_bytes(w)),
{
    lemma_first_term(w);
    let k = first_term(w) + 2;
    is_char_boundary_iff_is_leading_byte(w, k);
    valid_utf8_split(w, k);
}

/// Reassembles the manager protocol's messages from the chunks that a
/// stream hands out. It keeps the text that came after the last message
/// end; that text is always valid UTF-8.
pub struct AmiReader {
    buffer: Vec<u8>,
    cr: bool,
}

impl View for AmiReader {
    type V = Seq<u8>;

    closed spec fn view(&self) -> Seq<u8> {
        self.buffer@
    }
}

impl AmiReader {
    pub open spec fn wf(&self) -> bool {
        valid_utf8(self@)
    }

    /// While the version line is read: the last chunk ended with a CR that
    /// is not yet part of the line.
    pub closed spec fn pending_cr(&self) -> bool {
        self.cr
    }

    pub fn new() -> (r: Self)
        ensures
            r@ == Seq::<u8>::empty(),
            !r.pending_cr(),
            r.wf(),
    {
        AmiReader { buffer: Vec::new(), cr: false }
    }

    /// Drops everything the reader holds; for when the stream itself failed.
    pub fn reset(&mut self)
        ensures
            final(self)@.len() == 0,
            !final(self).pending_cr(),
            final(self).wf(),
    {
        self.buffer.clear();
        self.cr = false;
    }

    /// How many bytes of an unfinished message are held.
    pub fn pending_len(&self) -> (r: usize)
        ensures
            r == self@.len(),
    {
        self.buffer.len()
    }

    /// Takes one chunk read from the stream while a message is awaited.
    /// Returns the message when it is complete; an empty chunk only means
    /// that nothing came yet. On an error the reader drops what it held.
    pub fn message_step(&mut self, chunk: &[u8]) -> (r: Result<Option<String>, AmiError>)
        requires
            old(self).wf(),
        ensures
            final(self).wf(),
            final(self).pending_cr() == old(self).pending_cr(),
            r is Err ==> final(self)@.len() == 0,
            (match message_framing(old(self)@, chunk@) {
                Framing::Pending(b) => r matches Ok(None) && final(self)@ == b,
                Framing::Message(m) => r matches Ok(Some(s)) && s@ == m && final(self)@.len() == 0,
                Framing::NotText => r matches Err(AmiError::NotUtf8(_)),
                Framing::NulBeforeEnd => r matches Err(AmiError::EofBeforeNeline),
            }),
    {
        let z = find_byte(chunk, NUL);
        let part = &chunk[0..z];
        if let Err(e) = decode_text(part) {
            self.buffer.clear();
            return Err(AmiError::NotUtf8(e));
        }
        push_all(&mut self.buffer, part);
        let t = find_term(&self.buffer);
        if t < self.buffer.len() {
            proof {
                lemma_first_term(self.buffer@);
                lemma_message_bytes_valid(self.buffer@);
            }
            let res = decode_text(&self.buffer.as_slice()[0..t + 2]);
            self.buffer.clear();
            match res {
                Ok(s) => Ok(Some(s)),
                Err(e) => Err(AmiError::NotUtf8(e)),
            }
        } else if z < chunk.len() {
            self.buffer.clear();
            Err(AmiError::EofBeforeNeline)
        } else {
            Ok(None)
        }
    }

    /// Takes one chunk read from the stream while the version line is
    /// awaited: the text of the line goes to `line`, and what follows the
    /// newline stays in the reader. A CR that ends a chunk is held back until
    /// the next chunk shows whether the newline follows it. Returns whether
    /// the line is complete. On an error the reader drops what it held.
    pub fn version_step(&mut self, line: &mut String, chunk: &[u8]) -> (r: Result<bool, AmiError>)
        requires
            old(self).wf(),
        ensures
            final(self).wf(),
            r is Err ==> final(self)@.len() == 0 && !final(self).pending_cr(),
            (match line_framing(old(self).pending_cr(), chunk@) {
                LineFraming::Partial(t, cr) => r matches Ok(false) && final(line)@ == old(line)@ + t
                    && final(self)@ == old(self)@ && final(self).pending_cr() == cr,
                LineFraming::Line(t, rest) => r matches Ok(true) && final(line)@ == old(line)@ + t
                    && final(self)@ == old(self)@ + rest && !final(self).pending_cr(),
                LineFraming::NotText => r matches Err(AmiError::NotUtf8(_)),
                LineFraming::NulBeforeEnd => r matches Err(AmiError::EofBeforeNeline),
                LineFraming::IsolatedNewline => r matches Err(AmiError::IsolatedNewline),
            }),
    {
        let cr = self.cr;
        let n = find_byte(chunk, LF);
        let z = find_byte(chunk, NUL);
        proof {
            lemma_index_of(chunk@, LF);
            lemma_index_of(chunk@, NUL);
        }
        if z < n {
            self.reset();
            return Err(AmiError::EofBeforeNeline);
        }
        if n < chunk.len() {
            let rest = &chunk[n + 1..z];
            if n == 0 {
                if !cr {
                    self.reset();
                    return Err(AmiError::IsolatedNewline);
                }
                return match decode_text(rest) {
                    Ok(_) => {
                        push_all(&mut self.buffer, rest);
                        self.cr = false;
                        Ok(true)
                    },
                    Err(e) => {
                        self.reset();
                        Err(AmiError::NotUtf8(e))
                    },
                };
            }
            if chunk[n - 1] != CR {
                self.reset();
                return Err(AmiError::IsolatedNewline);
            }
            match (decode_text(&chunk[0..n - 1]), decode_text(rest)) {
                (Ok(head), Ok(_)) => {
                    if cr {
                        line.append("\r");
                    }
                    line.append(head.as_str());
                    push_all(&mut self.buffer, rest);
                    self.cr = false;
                    Ok(true)
                },
                (Err(e), _) => {
                    self.reset();
                    Err(AmiError::NotUtf8(e))
                },
                (_, Err(e)) => {
                    self.reset();
                    Err(AmiError::NotUtf8(e))
                },
            }
        } else {
            let text = match decode_text(chunk) {
                Ok(text) => text,
                Err(e) => {
                    self.reset();
                    return Err(AmiError::NotUtf8(e));
                },
            };
            let len = chunk.len();
            if len == 0 {
                return Ok(false);
            }
            if chunk[len - 1] == CR {
                proof {
                    is_char_boundary_iff_is_leading_byte(chunk@, len - 1);
                    valid_utf8_split(chunk@, len - 1);
                    assert(chunk@.subrange(0, len - 1) =~= chunk@.drop_last());
                }
                match decode_text(&chunk[0..len - 1]) {
                    Ok(head) => {
                        if cr {
                            line.append("\r");
                        }
                        line.append(head.as_str());
                        self.cr = true;
                        Ok(false)
                    },
                    Err(e) => {
                        self.reset();
                        Err(AmiError::NotUtf8(e))
                    },
                }
            } else {
                if cr {
                    line.append("\r");
                }
                line.append(text.as_str());
                self.cr = false;
                Ok(false)
            }
        }
    }
}

/// The login action for `username` with `secret`, events switched off.
pub open spec fn login_text(username: Seq<char>, secret: Seq<char>) -> Seq<char> {
    "Action: Login\r\nAuthType: plain\r\nUsername: "@ + username + "\r\nSecret: "@ + secret
        + "\r\nEvents: off\r\n\r\n"@
}

/// Builds the login action.
pub fn login_action(username: &str, secret: &str) -> (r: String)
    ensures
        r@ == login_text(username@, secret@),
{
    let mut a = String::from_str("Action: Login\r\nAuthType: plain\r\nUsername: ");
    a.append(username);
    a.append("\r\nSecret: ");
    a.append(secret);
    a.append("\r\nEvents: off\r\n\r\n");
    a
}

/// The logoff action.
pub fn logoff_action() -> (r: String)
    ensures
        r@ == "Action: Logoff\r\n\r\n"@,
{
    String::from_str("Action: Logoff\r\n\r\n")
}

/// The bytes of the header that reports success.
pub open spec fn success_header() -> Seq<u8> {
    "Response: Success".spec_bytes()
}

/// The bytes of the header that reports how an action went.
pub open spec fn response_header() -> Seq<u8> {
    "Response:".spec_bytes()
}

/// A line of `b` starts at `i` with `m`.
pub open spec fn line_starts_with_at(b: Seq<u8>, m: Seq<u8>, i: int) -> bool {
    &&& 0 <= i
    &&& i + m.len() <= b.len()
    &&& (i == 0 || b[i - 1] == LF)
    &&& b.subrange(i, i + m.len()) == m
}

/// Some line of `b` starts with `m`.
pub open spec fn has_line_starting(b: Seq<u8>, m: Seq<u8>) -> bool {
    exists|i: int| line_starts_with_at(b, m, i)
}

/// Some line of `b` starts with the success header.
pub open spec fn has_success_line(b: Seq<u8>) -> bool {
    has_line_starting(b, success_header())
}

/// `b` holds `m` at `i`.
fn holds_at(b: &[u8], i: usize, m: &[u8]) -> (r: bool)
    ensures
        r == (i + m@.len() <= b@.len() && b@.subrange(i as int, i + m@.len()) == m@),
{
    if i > b.len() || m.len() > b.len() - i {
        return false;
    }
    let n = b.len();
    let mut k: usize = 0;
    while k < m.len()
        invariant
            n == b@.len(),
            i + m@.len() <= n,
            k <= m@.len(),
            forall|j: int| 0 <= j < k ==> b@[i + j] == m@[j],
        decreases m@.len() - k,
    {
        assert(i + k < b@.len());
        if b[i + k] != m[k] {
            assert(b@.subrange(i as int, i + m@.len())[k as int] != m@[k as int]);
            return false;
        }
        k = k + 1;
    }
    assert(b@.subrange(i as int, i + m@.len()) =~= m@);
    true
}

/// Whether a line of `b` starts with `m`.
fn line_starting(b: &[u8], m: &[u8]) -> (r: bool)
    ensures
        r == has_line_starting(b@, m@),
{
    let n = b.len();
    let mut i: usize = 0;
    while i < n
        invariant
            n == b@.len(),
            i <= n,
            forall|j: int| 0 <= j < i ==> !line_starts_with_at(b@, m@, j),
        decreases n - i,
    {
        if (i == 0 || b[i - 1] == LF) && holds_at(b, i, m) {
            assert(line_starts_with_at(b@, m@, i as int));
            return true;
        }
        i = i + 1;
    }
    let last = (n == 0 || b[n - 1] == LF) && holds_at(b, n, m);
    proof {
        if last {
            assert(line_starts_with_at(b@, m@, n as int));
        } else {
            assert forall|j: int| !line_starts_with_at(b@, m@, j) by {
                if j == n as int {
                }
            }
        }
    }
    last
}

/// Whether a line of the response starts with `Response: Success`.
pub fn is_success_response(response: &str) -> (r: bool)
    ensures
        r == has_success_line(response.spec_bytes()),
{
    line_starting(response.as_bytes(), "Response: Success".as_bytes())
}

/// The outcome of an action, from its response: success when a line starts
/// with `Response: Success`; otherwise an unsuccessful action when some
/// line starts with `Response:`, and a missing response line when none does.
pub fn check_response(response: &str) -> (r: Result<(), AmiError>)
    ensures
        r is Ok <==> has_success_line(response.spec_bytes()),
        !has_success_line(response.spec_bytes()) && has_line_starting(
            response.spec_bytes(),
            response_header(),
        ) ==> r matches Err(AmiError::ActionUnsuccessful),
        !has_success_line(response.spec_bytes()) && !has_line_starting(
            response.spec_bytes(),
            response_header(),
        ) ==> r matches Err(AmiError::NoResponseLine),
{
    if is_success_response(response) {
        Ok(())
    } else if line_starting(response.as_bytes(), "Response:".as_bytes()) {
        Err(AmiError::ActionUnsuccessful)
    } else {
        Err(AmiError::NoResponseLine)
    }
}

/// The outcome of a login: it succeeded when a line of the response starts
/// with `Response: Success`.
pub fn check_login(response: &str) -> (r: Result<(), AmiError>)
    ensures
        r is Ok <==> has_success_line(response.spec_bytes()),
        r is Err ==> r matches Err(AmiError::LoginFailure),
{
    if is_success_response(response) {
        Ok(())
    } else {
        Err(AmiError::LoginFailure)
    }
}

/// The reader that starts from `buf` and is fed `chunks` in turn, until a
/// chunk ends the read.
pub open spec fn read_message(buf: Seq<u8>, chunks: Seq<Seq<u8>>) -> Framing
    decreases chunks.len(),
{
    if chunks.len() == 0 {
        Framing::Pending(buf)
    } else {
        match message_framing(buf, chunks[0]) {
            Framing::Pending(b) => read_message(b, chunks.drop_first()),
            f => f,
        }
    }
}

/// The version line read from `chunks` in turn, until a chunk ends it;
/// `cr` tells whether a CR is held back from before the first chunk.
pub open spec fn read_version(cr: bool, chunks: Seq<Seq<u8>>) -> LineFraming
    decreases chunks.len(),
{
    if chunks.len() == 0 {
        LineFraming::Partial(Seq::empty(), cr)
    } else {
        match line_framing(cr, chunks[0]) {
            LineFraming::Partial(t, cr2) => match read_version(cr2, chunks.drop_first()) {
                LineFraming::Partial(u, cr3) => LineFraming::Partial(t + u, cr3),
                LineFraming::Line(u, rest) => LineFraming::Line(t + u, rest),
                f => f,
            },
            f => f,
        }
    }
}

/// Every chunk is text and holds no NUL.
pub open spec fn plain_chunks(chunks: Seq<Seq<u8>>) -> bool {
    forall|i: int|
        0 <= i < chunks.len() ==> valid_utf8(#[trigger] chunks[i]) && index_of(chunks[i], NUL)
            == chunks[i].len()
}

/// Every chunk that holds neither a newline nor a NUL is text.
pub open spec fn text_until_line_end(chunks: Seq<Seq<u8>>) -> bool {
    forall|i: int|
        0 <= i < chunks.len() && index_of(#[trigger] chunks[i], LF) == chunks[i].len()
            && index_of(chunks[i], NUL) == chunks[i].len() ==> valid_utf8(chunks[i])
}

pub proof fn lemma_index_of_concat(a: Seq<u8>, b: Seq<u8>, x: u8)
    ensures
        index_of(a + b, x) == if index_of(a, x) < a.len() {
            index_of(a, x)
        } else {
            a.len() + index_of(b, x)
        },
    decreases a.len(),
{
    if a.len() == 0 {
        assert(a + b =~= b);
    } else {
        assert((a + b).drop_first() =~= a.drop_first() + b);
        lemma_index_of_concat(a.drop_first(), b, x);
    }
}

proof fn lemma_plain_flatten(chunks: Seq<Seq<u8>>)
    requires
        plain_chunks(chunks),
    ensures
        valid_utf8(chunks.flatten()),
        index_of(chunks.flatten(), NUL) == chunks.flatten().len(),
    decreases chunks.len(),
{
    if chunks.len() > 0 {
        let rest = chunks.drop_first();
        assert forall|i: int| 0 <= i < rest.len() implies valid_utf8(#[trigger] rest[i])
            && index_of(rest[i], NUL) == rest[i].len() by {
            assert(rest[i] == chunks[i + 1]);
        }
        lemma_plain_flatten(rest);
        assert(valid_utf8(chunks[0]));
        lemma_index_of_concat(chunks[0], rest.flatten(), NUL);
    }
}

proof fn lemma_read_whole(buf: Seq<u8>, chunks: Seq<Seq<u8>>)
    requires
        valid_utf8(buf),
        !has_term(buf),
        plain_chunks(chunks),
    ensures
        read_message(buf, chunks) == message_framing(buf, chunks.flatten()),
    decreases chunks.len(),
{
    let flat = chunks.flatten();
    lemma_plain_flatten(chunks);
    assert(flat.subrange(0, flat.len() as int) =~= flat);
    if chunks.len() == 0 {
        assert(buf + flat =~= buf);
    } else {
        let c0 = chunks[0];
        let rest = chunks.drop_first();
        let fr = rest.flatten();
        assert(flat =~= c0 + fr);
        assert(valid_utf8(c0) && index_of(c0, NUL) == c0.len());
        assert(c0.subrange(0, c0.len() as int) =~= c0);
        assert forall|i: int| 0 <= i < rest.len() implies valid_utf8(#[trigger] rest[i])
            && index_of(rest[i], NUL) == rest[i].len() by {
            assert(rest[i] == chunks[i + 1]);
        }
        lemma_plain_flatten(rest);
        let w0 = buf + c0;
        assert(buf + flat =~= w0 + fr);
        if has_term(w0) {
            lemma_first_term_extend(w0, fr);
            lemma_first_term(w0);
            assert(message_bytes(w0 + fr) =~= message_bytes(w0));
        } else {
            lemma_read_whole(w0, rest);
            assert(fr.subrange(0, fr.len() as int) =~= fr);
        }
    }
}

/// Chunk boundaries do not matter: a stream of text without NUL bytes, fed
/// to the reader in chunks of any size, gives the same result as the whole
/// stream fed at once.
pub proof fn law_chunk_boundaries(chunks: Seq<Seq<u8>>)
    requires
        plain_chunks(chunks),
    ensures
        read_message(Seq::empty(), chunks) == read_message(Seq::empty(), seq![chunks.flatten()]),
{
    let one = seq![chunks.flatten()];
    lemma_read_whole(Seq::empty(), chunks);
    assert(one[0] == chunks.flatten());
    assert(one.drop_first() =~= Seq::<Seq<u8>>::empty());
    if let Framing::Pending(b) = message_framing(Seq::empty(), chunks.flatten()) {
        assert(read_message(b, one.drop_first()) == Framing::Pending(b));
    }
}

proof fn lemma_text_until_line_end_rest(chunks: Seq<Seq<u8>>)
    requires
        chunks.len() > 0,
        text_until_line_end(chunks),
    ensures
        text_until_line_end(chunks.drop_first()),
{
    let rest = chunks.drop_first();
    assert forall|i: int|
        0 <= i < rest.len() && index_of(#[trigger] rest[i], LF) == rest[i].len() && index_of(
            rest[i],
            NUL,
        ) == rest[i].len() implies valid_utf8(rest[i]) by {
        assert(rest[i] == chunks[i + 1]);
    }
}

proof fn lemma_isolated_newline_from(cr: bool, chunks: Seq<Seq<u8>>)
    requires
        index_of(chunks.flatten(), LF) < chunks.flatten().len(),
        index_of(chunks.flatten(), NUL) > index_of(chunks.flatten(), LF),
        index_of(chunks.flatten(), LF) == 0 ==> !cr,
        index_of(chunks.flatten(), LF) > 0 ==> chunks.flatten()[index_of(chunks.flatten(), LF) - 1]
            != CR,
        text_until_line_end(chunks),
    ensures
        read_version(cr, chunks) == LineFraming::IsolatedNewline,
    decreases chunks.len(),
{
    let flat = chunks.flatten();
    if chunks.len() > 0 {
        let c0 = chunks[0];
        let rest = chunks.drop_first();
        let fr = rest.flatten();
        assert(flat =~= c0 + fr);
        lemma_index_of_concat(c0, fr, LF);
        lemma_index_of_concat(c0, fr, NUL);
        lemma_index_of(c0, LF);
        lemma_index_of(c0, NUL);
        lemma_index_of(fr, LF);
        lemma_index_of(fr, NUL);
        if index_of(c0, LF) < c0.len() {
            let n = index_of(c0, LF);
            if n > 0 {
                assert(flat[n - 1] == c0[n - 1]);
            }
        } else {
            assert(valid_utf8(chunks[0]));
            lemma_text_until_line_end_rest(chunks);
            let q = index_of(fr, LF);
            assert(flat[c0.len() + q] == fr[q]);
            if q > 0 {
                assert(flat[c0.len() + q - 1] == fr[q - 1]);
            }
            if c0.len() > 0 {
                assert(flat[c0.len() - 1] == c0.last());
            }
            let cr2 = if c0.len() == 0 {
                cr
            } else {
                c0.last() == CR
            };
            if let LineFraming::Partial(t, c) = line_framing(cr, c0) {
                assert(c == cr2);
            }
            lemma_isolated_newline_from(cr2, rest);
        }
    }
}

/// A newline that does not follow a carriage return ends the version line
/// with an error, wherever it falls in the stream and however the stream is
/// split into reads, when it is the first newline, no NUL comes before it,
/// and the reads before it are text.
pub proof fn law_isolated_newline(chunks: Seq<Seq<u8>>)
    requires
        index_of(chunks.flatten(), LF) < chunks.flatten().len(),
        index_of(chunks.flatten(), NUL) > index_of(chunks.flatten(), LF),
        index_of(chunks.flatten(), LF) == 0 || chunks.flatten()[index_of(chunks.flatten(), LF) - 1]
            != CR,
        text_until_line_end(chunks),
    ensures
        read_version(false, chunks) == LineFraming::IsolatedNewline,
{
    lemma_isolated_newline_from(false, chunks);
}

proof fn lemma_nul_before_line_end_from(cr: bool, chunks: Seq<Seq<u8>>)
    requires
        index_of(chunks.flatten(), NUL) < index_of(chunks.flatten(), LF),
        text_until_line_end(chunks),
    ensures
        read_version(cr, chunks) == LineFraming::NulBeforeEnd,
    decreases chunks.len(),
{
    let flat = chunks.flatten();
    lemma_index_of(flat, LF);
    if chunks.len() > 0 {
        let c0 = chunks[0];
        let rest = chunks.drop_first();
        let fr = rest.flatten();
        assert(flat =~= c0 + fr);
        lemma_index_of_concat(c0, fr, LF);
        lemma_index_of_concat(c0, fr, NUL);
        lemma_index_of(c0, LF);
        lemma_index_of(c0, NUL);
        lemma_index_of(fr, NUL);
        lemma_index_of(fr, LF);
        if index_of(c0, NUL) < c0.len() {
            assert(line_framing(cr, c0) == LineFraming::NulBeforeEnd);
        } else {
            assert(index_of(c0, LF) == c0.len());
            assert(valid_utf8(chunks[0]));
            lemma_text_until_line_end_rest(chunks);
            if let LineFraming::Partial(t, c) = line_framing(cr, c0) {
                lemma_nul_before_line_end_from(c, rest);
            }
        }
    }
}

/// A NUL before the first newline ends the version line with the
/// end-of-stream error, however the stream is split into reads, when the
/// reads before it are text.
pub proof fn law_nul_before_line_end(chunks: Seq<Seq<u8>>)
    requires
        index_of(chunks.flatten(), NUL) < index_of(chunks.flatten(), LF),
        text_until_line_end(chunks),
    ensures
        read_version(false, chunks) == LineFraming::NulBeforeEnd,
{
    lemma_nul_before_line_end_from(false, chunks);
}

/// A line whose CR ends one read and whose LF opens the next is read whole:
/// the line is the text before the CR, and what follows the LF, up to the
/// first NUL, stays in the reader.
pub proof fn law_crlf_split(line: Seq<u8>, after: Seq<u8>)
    requires
        valid_utf8(line),
        index_of(line, LF) == line.len(),
        index_of(line, NUL) == line.len(),
        valid_utf8(after.subrange(0, index_of(after, NUL))),
    ensures
        read_version(false, seq![line.push(CR), seq![LF] + after]) == LineFraming::Line(
            decode_utf8(line),
            after.subrange(0, index_of(after, NUL)),
        ),
{
    let c1 = line.push(CR);
    let c2 = seq![LF] + after;
    let chunks = seq![c1, c2];
    let cr_only = seq![CR];
    assert(valid_utf8(cr_only)) by {
        reveal_with_fuel(valid_utf8, 2);
        assert(pop_first_scalar(cr_only) =~= Seq::<u8>::empty());
    }
    assert(cr_only.drop_first() =~= Seq::<u8>::empty());
    assert(cr_only[0] == CR && cr_only.len() == 1);
    assert(index_of(cr_only.drop_first(), LF) == 0);
    assert(index_of(cr_only.drop_first(), NUL) == 0);
    assert(index_of(cr_only, LF) == 1);
    assert(index_of(cr_only, NUL) == 1);
    assert(c1 =~= line + cr_only);
    assert(c1.last() == CR);
    assert(Seq::<char>::empty() + decode_utf8(line) =~= decode_utf8(line));
    valid_utf8_concat(line, cr_only);
    lemma_index_of_concat(line, cr_only, LF);
    lemma_index_of_concat(line, cr_only, NUL);
    assert(c1.drop_last() =~= line);
    assert(line_framing(false, c1) == LineFraming::Partial(decode_utf8(line), true));
    assert(c2.drop_first() =~= after);
    assert(c2[0] == LF);
    assert(index_of(c2, LF) == 0);
    assert(index_of(c2, NUL) == 1 + index_of(after, NUL));
    lemma_index_of(after, NUL);
    assert(c2.subrange(1, index_of(c2, NUL)) =~= after.subrange(0, index_of(after, NUL)));
    assert(chunks[0] == c1);
    assert(chunks.drop_first() =~= seq![c2]);
    assert(seq![c2].drop_first() =~= Seq::<Seq<u8>>::empty());
    let rest = after.subrange(0, index_of(after, NUL));
    assert(index_of(c2, NUL) > 0);
    assert(line_framing(true, c2) == LineFraming::Line(Seq::<char>::empty(), rest));
    assert(read_version(true, seq![c2]) == LineFraming::Line(Seq::<char>::empty(), rest));
    assert(read_version(true, chunks.drop_first()) == LineFraming::Line(
        Seq::<char>::empty(),
        rest,
    ));
    assert(decode_utf8(line) + Seq::<char>::empty() =~= decode_utf8(line));
}

/// A NUL that comes before any message terminator is never read as part of
/// a message: the read ends with an error.
pub proof fn law_nul_never_a_message(buf: Seq<u8>, chunks: Seq<Seq<u8>>)
    requires
        index_of(chunks.flatten(), NUL) < chunks.flatten().len(),
        !has_term(buf + chunks.flatten().subrange(0, index_of(chunks.flatten(), NUL))),
    ensures
        read_message(buf, chunks) == Framing::NotText || read_message(buf, chunks)
            == Framing::NulBeforeEnd,
    decreases chunks.len(),
{
    let flat = chunks.flatten();
    let z = index_of(flat, NUL);
    if chunks.len() > 0 {
        let c0 = chunks[0];
        let rest = chunks.drop_first();
        let fr = rest.flatten();
        assert(flat =~= c0 + fr);
        lemma_index_of_concat(c0, fr, NUL);
        lemma_index_of(c0, NUL);
        if index_of(c0, NUL) < c0.len() {
            assert(c0.subrange(0, index_of(c0, NUL)) =~= flat.subrange(0, z));
        } else {
            assert(c0.subrange(0, c0.len() as int) =~= c0);
            let w0 = buf + c0;
            let zr = index_of(fr, NUL);
            lemma_index_of(fr, NUL);
            assert(w0 + fr.subrange(0, zr) =~= buf + flat.subrange(0, z));
            if has_term(w0) {
                lemma_first_term_extend(w0, fr.subrange(0, zr));
            }
            if valid_utf8(c0) && !has_term(w0) {
                law_nul_never_a_message(w0, rest);
            }
        }
    }
}

} // verus!
