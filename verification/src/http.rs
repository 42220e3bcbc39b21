//! HTTP inbound, as decisions on the bytes that were read.
//!
//! * `CONNECT host:port` is routed and tunneled;
//! * plain requests (`GET http://host/path` in absolute form, or in origin form
//!   with a `Host` header) are routed the same way, and their bytes, the head
//!   included, go through unchanged.

use crate::addr::{AddrModel, ProxyAddr};
use crate::bytes::append;
use crate::endpoint::{authority, parse_authority, AuthorityError};
use crate::error::{IoError, IoErrorKind};
use crate::text::{
    begins, chars_of, decimal_text, decode_lossy, find, first_index, is_space, is_space_char,
    law_separator_found, lemma_first_index, lossy_text, lower, push_decimal, push_str, spells,
    starts_with, to_lower, trim, trimmed, trimmed_start,
};
use vstd::prelude::*;
use vstd::slice::slice_subrange;

verus! {

/// Request head size cap.
pub const MAX_HEAD: usize = 16_384;

// ---------------------------------------------------------------------------
// Reading the head
// ---------------------------------------------------------------------------

/// Whether the four bytes that end a head stand at `i`.
pub open spec fn head_ends_at(s: Seq<u8>, i: int) -> bool {
    0 <= i <= s.len() - 4 && s[i] == 0x0d && s[i + 1] == 0x0a && s[i + 2] == 0x0d && s[i + 3] == 0x0a
}

/// Where a head first ends.
pub open spec fn first_head_end(s: Seq<u8>, i: int) -> bool {
    head_ends_at(s, i) && forall|j: int| 0 <= j < i ==> !#[trigger] head_ends_at(s, j)
}

/// A head ends at its first empty line, and at one place only.
pub proof fn law_head_end(s: Seq<u8>, i: int, j: int)
    requires
        first_head_end(s, i),
    ensures
        0 <= i,
        i + 4 <= s.len(),
        s.subrange(i, i + 4) == seq![13u8, 10u8, 13u8, 10u8],
        first_head_end(s, j) ==> i == j,
        0 <= j < i ==> s.subrange(j, j + 4) != seq![13u8, 10u8, 13u8, 10u8],
{
    assert(s.subrange(i, i + 4) =~= seq![13u8, 10u8, 13u8, 10u8]);
    if 0 <= j < i {
        assert(!head_ends_at(s, j));
        let t: Seq<u8> = s.subrange(j, j + 4);
        if t == seq![13u8, 10u8, 13u8, 10u8] {
            assert(t[0] == 13u8 && t[1] == 10u8 && t[2] == 13u8 && t[3] == 10u8);
        }
    }
    if first_head_end(s, j) && i < j {
        assert(!head_ends_at(s, i));
    }
}

/// Finds where the head ends.
pub fn find_head_end(s: &[u8]) -> (r: Option<usize>)
    ensures
        match r {
            Some(i) => first_head_end(s@, i as int),
            None => forall|j: int| !#[trigger] head_ends_at(s@, j),
        },
{
    let n: usize = s.len();
    if n < 4 {
        return None;
    }
    let mut i: usize = 0;
    while i <= n - 4
        invariant
            n == s@.len(),
            4 <= n,
            i <= n - 3,
            forall|j: int| 0 <= j < i ==> !#[trigger] head_ends_at(s@, j),
        decreases n - i,
    {
        if s[i] == 0x0d && s[i + 1] == 0x0a && s[i + 2] == 0x0d && s[i + 3] == 0x0a {
            return Some(i);
        }
        i += 1;
    }
    None
}

/// What to do after a chunk of a request was read.
pub enum HeadStep {
    /// Read another chunk.
    More,
    /// The head is complete; these bytes came behind it.
    Complete(Vec<u8>),
    /// The request is refused.
    Fail(IoError),
}

/// Takes a chunk of a request; `buf` gathers the head, up to and with its empty
/// line. An empty chunk is the end of the stream.
pub fn feed_head(buf: &mut Vec<u8>, chunk: &[u8]) -> (r: HeadStep)
    ensures
        chunk@.len() == 0 ==> final(buf)@ == old(buf)@ && (r matches HeadStep::Fail(e) && e.kind
            == IoErrorKind::UnexpectedEof && e.message@
            == "connection closed before request head completed"@),
        chunk@.len() > 0 ==> match r {
            HeadStep::Complete(extra) => final(buf)@ + extra@ == old(buf)@ + chunk@
                && final(buf)@.len() >= 4 && first_head_end(
                old(buf)@ + chunk@,
                final(buf)@.len() - 4,
            ),
            HeadStep::More => final(buf)@ == old(buf)@ + chunk@ && final(buf)@.len() <= MAX_HEAD && (
            forall|j: int| !#[trigger] head_ends_at(old(buf)@ + chunk@, j)),
            HeadStep::Fail(e) => final(buf)@ == old(buf)@ + chunk@ && final(buf)@.len() > MAX_HEAD
                && (forall|j: int| !#[trigger] head_ends_at(old(buf)@ + chunk@, j)) && e.kind
                == IoErrorKind::InvalidData && e.message@ == "request head too large"@,
        },
{
    if chunk.len() == 0 {
        return HeadStep::Fail(
            IoError::new(
                IoErrorKind::UnexpectedEof,
                "connection closed before request head completed",
            ),
        );
    }
    append(buf, chunk);
    let total: usize = buf.len();
    match find_head_end(buf.as_slice()) {
        Some(pos) => {
            let ghost all: Seq<u8> = buf@;
            let extra: Vec<u8> = buf.split_off(pos + 4);
            assert(buf@ + extra@ =~= all);
            HeadStep::Complete(extra)
        },
        None => {
            if total > MAX_HEAD {
                HeadStep::Fail(IoError::new(IoErrorKind::InvalidData, "request head too large"))
            } else {
                HeadStep::More
            }
        },
    }
}

// ---------------------------------------------------------------------------
// Parsing the request
// ---------------------------------------------------------------------------

/// Why a request is refused.
#[derive(Debug, Clone, Copy, PartialEq, Eq, Structural)]
pub enum HttpError {
    /// The request line has no method or no target.
    BadRequestLine,
    /// The authority of the target is refused.
    Authority(AuthorityError),
    /// A request in origin form has no `Host` header.
    NoHostHeader,
}

/// How many characters the first word of `s` has.
pub open spec fn word_len(s: Seq<char>) -> nat
    decreases s.len(),
{
    if s.len() == 0 || is_space(s[0]) {
        0
    } else {
        1 + word_len(s.skip(1))
    }
}

/// The first word of `s`; empty where there is none.
pub open spec fn first_word(s: Seq<char>) -> Seq<char> {
    trimmed_start(s).take(word_len(trimmed_start(s)) as int)
}

/// What stands behind the first word of `s`.
pub open spec fn after_word(s: Seq<char>) -> Seq<char> {
    trimmed_start(s).skip(word_len(trimmed_start(s)) as int)
}

/// The first line of `s`.
pub open spec fn first_line(s: Seq<char>) -> Seq<char> {
    match first_index(s, '\n') {
        Some(i) => s.take(i),
        None => s,
    }
}

/// Whether a line is a `Host` header.
pub open spec fn is_host_line(line: Seq<char>) -> bool {
    line.len() >= 5 && lower(line.take(5)) == "host:"@
}

/// The value of the first `Host` header.
pub open spec fn host_value(s: Seq<char>) -> Option<Seq<char>>
    decreases s.len(),
{
    let line: Seq<char> = first_line(s);
    if is_host_line(line) {
        Some(trimmed(line.skip(5)))
    } else {
        match first_index(s, '\n') {
            Some(i) => if 0 <= i < s.len() {
                host_value(s.skip(i + 1))
            } else {
                None
            },
            None => None,
        }
    }
}

/// The authority at the front of `s`: what stands before the first slash.
pub open spec fn before_slash(s: Seq<char>) -> Seq<char> {
    match first_index(s, '/') {
        Some(i) => s.take(i),
        None => s,
    }
}

/// The target behind an authority, with its refusal as a request error.
pub open spec fn routed(s: Seq<char>, default_port: u16) -> Result<AddrModel, HttpError> {
    match authority(s, default_port) {
        Ok(a) => Ok(a),
        Err(e) => Err(HttpError::Authority(e)),
    }
}

/// The target of a plain request: absolute form, or origin form with the host
/// from the `Host` header.
pub open spec fn plain_target(target: Seq<char>, head: Seq<char>) -> Result<AddrModel, HttpError> {
    if begins(target, "http://"@) {
        routed(before_slash(target.skip(7)), 80)
    } else if begins(target, "https://"@) {
        routed(before_slash(target.skip(8)), 443)
    } else {
        match host_value(head) {
            Some(value) => routed(value, 80),
            None => Err(HttpError::NoHostHeader),
        }
    }
}

/// What a request head asks for: whether it is a CONNECT, and the target.
pub open spec fn request_of(head: Seq<char>) -> Result<(bool, AddrModel), HttpError> {
    let line: Seq<char> = first_line(head);
    let method: Seq<char> = first_word(line);
    let target: Seq<char> = first_word(after_word(line));
    let connect: bool = lower(method) == "connect"@;
    if method.len() == 0 || target.len() == 0 {
        Err(HttpError::BadRequestLine)
    } else {
        match if connect {
            routed(target, 443)
        } else {
            plain_target(target, head)
        } {
            Ok(a) => Ok((connect, a)),
            Err(e) => Err(e),
        }
    }
}

/// A request line is a method, a target and whatever follows, with white space
/// between them. A CONNECT in any case goes to its target, port 443 where none
/// is given; any other method goes where its target and head say.
pub proof fn law_request_line(method: Seq<char>, target: Seq<char>, rest: Seq<char>)
    requires
        method.len() > 0,
        target.len() > 0,
        forall|i: int| 0 <= i < method.len() ==> !is_space(#[trigger] method[i]),
        forall|i: int| 0 <= i < target.len() ==> !is_space(#[trigger] target[i]),
    ensures
        ({
            let head: Seq<char> = method + seq![' '] + target + seq![' '] + rest;
            &&& lower(method) == "connect"@ ==> request_of(head) == match authority(target, 443) {
                Ok(a) => Ok::<(bool, AddrModel), HttpError>((true, a)),
                Err(e) => Err::<(bool, AddrModel), HttpError>(HttpError::Authority(e)),
            }
            &&& lower(method) != "connect"@ ==> request_of(head) == match plain_target(
                target,
                head,
            ) {
                Ok(a) => Ok::<(bool, AddrModel), HttpError>((false, a)),
                Err(e) => Err::<(bool, AddrModel), HttpError>(e),
            }
        }),
{
    let head: Seq<char> = method + seq![' '] + target + seq![' '] + rest;
    let front: Seq<char> = method + seq![' '] + target + seq![' '];
    let line: Seq<char> = first_line(head);
    lemma_first_index(head, '\n');
    let cut: int = match first_index(head, '\n') {
        Some(i) => i,
        None => head.len() as int,
    };
    assert(cut >= front.len()) by {
        if cut < front.len() {
            assert(head[cut] == '\n');
            assert(is_space('\n'));
            if cut < method.len() {
                assert(head[cut] == method[cut]);
            } else if cut > method.len() && cut < method.len() + 1 + target.len() {
                assert(head[cut] == target[cut - method.len() - 1]);
            }
        }
    }
    let tail: Seq<char> = head.subrange(front.len() as int, cut);
    let behind: Seq<char> = target + (seq![' '] + tail);
    assert(line =~= method + (seq![' '] + behind));
    lemma_word(method, seq![' '] + behind);
    assert(after_word(line) =~= seq![' '] + behind);
    assert((seq![' '] + behind).skip(1) =~= behind);
    assert(trimmed_start(seq![' '] + behind) == trimmed_start(behind));
    lemma_word(target, seq![' '] + tail);
}

/// A word in front of white space is the first word.
proof fn lemma_word(word: Seq<char>, rest: Seq<char>)
    requires
        word.len() > 0,
        forall|i: int| 0 <= i < word.len() ==> !is_space(#[trigger] word[i]),
        rest.len() > 0 ==> is_space(rest[0]),
    ensures
        trimmed_start(word + rest) == word + rest,
        word_len(word + rest) == word.len(),
        first_word(word + rest) == word,
        after_word(word + rest) == rest,
{
    assert(!is_space(word[0]));
    lemma_word_len(word, rest);
    assert((word + rest).take(word.len() as int) =~= word);
    assert((word + rest).skip(word.len() as int) =~= rest);
}

proof fn lemma_word_len(word: Seq<char>, rest: Seq<char>)
    requires
        forall|i: int| 0 <= i < word.len() ==> !is_space(#[trigger] word[i]),
        rest.len() > 0 ==> is_space(rest[0]),
    ensures
        word_len(word + rest) == word.len(),
    decreases word.len(),
{
    if word.len() > 0 {
        assert(!is_space(word[0]));
        let t: Seq<char> = word.skip(1);
        assert forall|i: int| 0 <= i < t.len() implies !is_space(#[trigger] t[i]) by {
            assert(t[i] == word[i + 1]);
        }
        lemma_word_len(t, rest);
        assert((word + rest).skip(1) =~= t + rest);
    } else {
        assert(word + rest =~= rest);
    }
}

/// A request line without a method and a target is refused: one that is empty,
/// and one that has a single word.
pub proof fn law_short_request_line_refused(word: Seq<char>, rest: Seq<char>)
    requires
        forall|i: int| 0 <= i < word.len() ==> !is_space(#[trigger] word[i]),
    ensures
        request_of(word + seq!['\n'] + rest) == Err::<(bool, AddrModel), HttpError>(
            HttpError::BadRequestLine,
        ),
{
    let head: Seq<char> = word + seq!['\n'] + rest;
    if word.contains('\n') {
        let i: int = choose|i: int| 0 <= i < word.len() && word[i] == '\n';
        assert(is_space(word[i]));
    }
    law_separator_found(word, '\n', rest);
    let line: Seq<char> = first_line(head);
    assert(line == word);
    let none: Seq<char> = Seq::empty();
    if word.len() > 0 {
        lemma_word(word, none);
        assert(word + none =~= word);
        assert(trimmed_start(none) =~= none);
    } else {
        assert(trimmed_start(line) =~= none);
    }
}

/// A target in absolute form names its host in front of the first slash, with
/// port 80 for `http` and 443 for `https` where none is given.
pub proof fn law_absolute_form(host: Seq<char>, path: Seq<char>, head: Seq<char>)
    requires
        !host.contains('/'),
        path.len() > 0 ==> path[0] == '/',
    ensures
        plain_target("http://"@ + host + path, head) == match authority(host, 80) {
            Ok(a) => Ok::<AddrModel, HttpError>(a),
            Err(e) => Err::<AddrModel, HttpError>(HttpError::Authority(e)),
        },
        plain_target("https://"@ + host + path, head) == match authority(host, 443) {
            Ok(a) => Ok::<AddrModel, HttpError>(a),
            Err(e) => Err::<AddrModel, HttpError>(HttpError::Authority(e)),
        },
{
    reveal_strlit("http://");
    reveal_strlit("https://");
    let a: Seq<char> = "http://"@ + host + path;
    let b: Seq<char> = "https://"@ + host + path;
    assert(a.take(7) =~= "http://"@);
    assert(b.take(8) =~= "https://"@);
    assert(b.take(7)[4] == 's');
    assert("http://"@[4] == ':');
    assert(a.skip(7) =~= host + path);
    assert(b.skip(8) =~= host + path);
    if path.len() > 0 {
        assert(host + path =~= host + seq!['/'] + path.skip(1));
        law_separator_found(host, '/', path.skip(1));
    } else {
        assert(host + path =~= host);
        law_separator_found(host, '/', path);
    }
}

/// A target in origin form takes its host from the `Host` header, with port 80
/// where none is given; without the header the request is refused.
pub proof fn law_origin_form(target: Seq<char>, head: Seq<char>)
    requires
        target.len() > 0,
        target[0] == '/',
    ensures
        host_value(head) is None ==> plain_target(target, head) == Err::<AddrModel, HttpError>(
            HttpError::NoHostHeader,
        ),
        host_value(head) matches Some(value) ==> plain_target(target, head) == match authority(
            value,
            80,
        ) {
            Ok(a) => Ok::<AddrModel, HttpError>(a),
            Err(e) => Err::<AddrModel, HttpError>(HttpError::Authority(e)),
        },
{
    reveal_strlit("http://");
    reveal_strlit("https://");
    assert("http://"@[0] == 'h' && "https://"@[0] == 'h');
    if begins(target, "http://"@) {
        assert(target.take(7)[0] == target[0]);
    }
    if begins(target, "https://"@) {
        assert(target.take(8)[0] == target[0]);
    }
}

/// The host of a head is the value of its first line that starts with `host:`,
/// in any case, without the white space around it.
pub proof fn law_host_header(line: Seq<char>, rest: Seq<char>)
    requires
        !line.contains('\n'),
    ensures
        host_value(line + seq!['\n'] + rest) == if line.len() >= 5 && lower(line.take(5))
            == "host:"@ {
            Some(trimmed(line.skip(5)))
        } else {
            host_value(rest)
        },
        host_value(line) == if line.len() >= 5 && lower(line.take(5)) == "host:"@ {
            Some(trimmed(line.skip(5)))
        } else {
            None
        },
{
    law_separator_found(line, '\n', rest);
}

/// A parsed request.
pub struct HttpRequest {
    /// Whether it is a CONNECT.
    pub connect: bool,
    /// Where it goes.
    pub addr: ProxyAddr,
}

/// Splits off the first word.
fn split_word(s: &[char]) -> (r: (&[char], &[char]))
    ensures
        r.0@ == first_word(s@),
        r.1@ == after_word(s@),
{
    let n: usize = s.len();
    let mut start: usize = 0;
    assert(s@.skip(0) =~= s@);
    while start < n && is_space_char(s[start])
        invariant
            n == s@.len(),
            start <= n,
            trimmed_start(s@) == trimmed_start(s@.skip(start as int)),
        decreases n - start,
    {
        assert(s@.skip(start as int).skip(1) =~= s@.skip(start + 1));
        start += 1;
    }
    let ghost t: Seq<char> = s@.skip(start as int);
    assert(trimmed_start(s@) == t);
    let mut end: usize = start;
    assert(t.skip(0) =~= t);
    while end < n && !is_space_char(s[end])
        invariant
            n == s@.len(),
            start <= end <= n,
            t == s@.skip(start as int),
            word_len(t) == (end - start) + word_len(t.skip(end - start)),
        decreases n - end,
    {
        assert(t.skip(end - start)[0] == s@[end as int]);
        assert(t.skip(end - start).skip(1) =~= t.skip(end + 1 - start));
        end += 1;
    }
    proof {
        if end < n {
            assert(t.skip(end - start)[0] == s@[end as int]);
        }
        assert(word_len(t.skip(end - start)) == 0);
    }
    let word: &[char] = slice_subrange(s, start, end);
    let rest: &[char] = slice_subrange(s, end, n);
    assert(word@ =~= t.take(end - start));
    assert(rest@ =~= t.skip(end - start));
    (word, rest)
}

/// The first line.
fn line_of(s: &[char]) -> (r: &[char])
    ensures
        r@ == first_line(s@),
{
    match find(s, '\n') {
        Some(i) => {
            let line: &[char] = slice_subrange(s, 0, i);
            assert(line@ =~= s@.take(i as int));
            line
        },
        None => s,
    }
}

/// Finds the value of the first `Host` header.
fn find_host(s: &[char]) -> (r: Option<&[char]>)
    ensures
        match host_value(s@) {
            Some(v) => r matches Some(x) && x@ == v,
            None => r is None,
        },
{
    let n: usize = s.len();
    let mut start: usize = 0;
    assert(s@.skip(0) =~= s@);
    loop
        invariant
            n == s@.len(),
            start <= n,
            host_value(s@) == host_value(s@.skip(start as int)),
        decreases n - start,
    {
        let rest: &[char] = slice_subrange(s, start, n);
        assert(rest@ =~= s@.skip(start as int));
        let line: &[char] = line_of(rest);
        if line.len() >= 5 {
            let name: &[char] = slice_subrange(line, 0, 5);
            assert(name@ =~= line@.take(5));
            let small: Vec<char> = to_lower(name);
            if spells(small.as_slice(), "host:") {
                let value: &[char] = slice_subrange(line, 5, line.len());
                assert(value@ =~= line@.skip(5));
                return Some(trim(value));
            }
        }
        match find(rest, '\n') {
            Some(i) => {
                assert(rest@.skip(i + 1) =~= s@.skip(start + i + 1));
                start = start + i + 1;
            },
            None => return None,
        }
    }
}

/// What stands before the first slash.
fn authority_part(s: &[char]) -> (r: &[char])
    ensures
        r@ == before_slash(s@),
{
    match find(s, '/') {
        Some(i) => {
            let part: &[char] = slice_subrange(s, 0, i);
            assert(part@ =~= s@.take(i as int));
            part
        },
        None => s,
    }
}

fn route(s: &[char], default_port: u16) -> (r: Result<ProxyAddr, HttpError>)
    ensures
        match routed(s@, default_port) {
            Ok(a) => r matches Ok(v) && v@ == a,
            Err(e) => r == Err::<ProxyAddr, HttpError>(e),
        },
{
    match parse_authority(s, default_port) {
        Ok(a) => Ok(a),
        Err(e) => Err(HttpError::Authority(e)),
    }
}

proof fn lemma_schemes()
    ensures
        "http://"@.len() == 7,
        "https://"@.len() == 8,
{
    reveal_strlit("http://");
    reveal_strlit("https://");
}

fn plain_target_chars(target: &[char], head: &[char]) -> (r: Result<ProxyAddr, HttpError>)
    ensures
        match plain_target(target@, head@) {
            Ok(a) => r matches Ok(v) && v@ == a,
            Err(e) => r == Err::<ProxyAddr, HttpError>(e),
        },
{
    proof {
        lemma_schemes();
    }
    let n: usize = target.len();
    if starts_with(target, "http://") {
        let rest: &[char] = slice_subrange(target, 7, n);
        assert(rest@ =~= target@.skip(7));
        return route(authority_part(rest), 80);
    }
    if starts_with(target, "https://") {
        let rest: &[char] = slice_subrange(target, 8, n);
        assert(rest@ =~= target@.skip(8));
        return route(authority_part(rest), 443);
    }
    match find_host(head) {
        Some(value) => route(value, 80),
        None => Err(HttpError::NoHostHeader),
    }
}

/// Plain request target: absolute form (`http://host:port/path`) or origin form
/// (`/path`, host from the `Host` header).
pub fn parse_plain_target(target: &str, head: &str) -> (r: Result<ProxyAddr, HttpError>)
    ensures
        match plain_target(target@, head@) {
            Ok(a) => r matches Ok(v) && v@ == a,
            Err(e) => r == Err::<ProxyAddr, HttpError>(e),
        },
{
    let t: Vec<char> = chars_of(target);
    let h: Vec<char> = chars_of(head);
    plain_target_chars(t.as_slice(), h.as_slice())
}

/// Parses the text of a request head.
pub fn parse_request_text(head: &str) -> (r: Result<HttpRequest, HttpError>)
    ensures
        match request_of(head@) {
            Ok((connect, a)) => r matches Ok(v) && v.connect == connect && v.addr@ == a,
            Err(e) => r == Err::<HttpRequest, HttpError>(e),
        },
{
    let chars: Vec<char> = chars_of(head);
    let line: &[char] = line_of(chars.as_slice());
    let (method, rest): (&[char], &[char]) = split_word(line);
    let (target, tail): (&[char], &[char]) = split_word(rest);
    if method.len() == 0 || target.len() == 0 {
        return Err(HttpError::BadRequestLine);
    }
    let small: Vec<char> = to_lower(method);
    let connect: bool = spells(small.as_slice(), "connect");
    let addr: Result<ProxyAddr, HttpError> = if connect {
        route(target, 443)
    } else {
        plain_target_chars(target, chars.as_slice())
    };
    match addr {
        Ok(addr) => Ok(HttpRequest { connect, addr }),
        Err(e) => Err(e),
    }
}

/// Parses the bytes of a request head.
pub fn parse_request(head: &[u8]) -> (r: Result<HttpRequest, HttpError>)
    ensures
        match request_of(lossy_text(head@)) {
            Ok((connect, a)) => r matches Ok(v) && v.connect == connect && v.addr@ == a,
            Err(e) => r == Err::<HttpRequest, HttpError>(e),
        },
{
    let text: String = decode_lossy(head);
    parse_request_text(text.as_str())
}

// ---------------------------------------------------------------------------
// Answering
// ---------------------------------------------------------------------------

/// A response without a body.
pub open spec fn response_text(code: u16, reason: Seq<char>) -> Seq<char> {
    "HTTP/1.1 "@ + decimal_text(code as nat) + " "@ + reason
        + "\r\nContent-Length: 0\r\nConnection: close\r\n\r\n"@
}

/// A response without a body.
pub fn response(code: u16, reason: &str) -> (r: String)
    ensures
        r@ == response_text(code, reason@),
{
    let mut out: String = String::new();
    push_str(&mut out, "HTTP/1.1 ");
    push_decimal(&mut out, code as u128);
    push_str(&mut out, " ");
    push_str(&mut out, reason);
    push_str(&mut out, "\r\nContent-Length: 0\r\nConnection: close\r\n\r\n");
    assert(out@ =~= response_text(code, reason@));
    out
}

/// How an inbound request went.
#[derive(Debug, Clone, Copy, PartialEq, Eq, Structural)]
pub enum HttpOutcome {
    /// The request was refused.
    Refused(HttpError),
    /// The rules block the target.
    Blocked,
    /// The target was connected.
    Connected,
    /// The target could not be connected.
    ConnectFailed,
}

impl HttpOutcome {
    /// The status that answers the outcome, where anything does. A bad target is
    /// not answered, and neither is a connected plain request: what comes back
    /// to it is the answer of the target.
    pub open spec fn status(self, connect: bool) -> Option<u16> {
        match self {
            HttpOutcome::Refused(HttpError::BadRequestLine) => Some(400),
            HttpOutcome::Refused(e) => None,
            HttpOutcome::Blocked => Some(403),
            HttpOutcome::Connected => if connect {
                Some(200)
            } else {
                None
            },
            HttpOutcome::ConnectFailed => Some(502),
        }
    }

    /// The words behind the status.
    pub open spec fn reason(self) -> Seq<char> {
        match self {
            HttpOutcome::Refused(e) => "Bad Request"@,
            HttpOutcome::Blocked => "Forbidden"@,
            HttpOutcome::Connected => "Connection Established"@,
            HttpOutcome::ConnectFailed => "Bad Gateway"@,
        }
    }
}

/// The status that answers a request, where anything does.
pub fn answer_code(outcome: HttpOutcome, connect: bool) -> (r: Option<u16>)
    ensures
        r == outcome.status(connect),
{
    match outcome {
        HttpOutcome::Refused(HttpError::BadRequestLine) => Some(400),
        HttpOutcome::Refused(e) => None,
        HttpOutcome::Blocked => Some(403),
        HttpOutcome::Connected => if connect {
            Some(200)
        } else {
            None
        },
        HttpOutcome::ConnectFailed => Some(502),
    }
}

/// The response that answers a request, where anything does.
pub fn answer(outcome: HttpOutcome, connect: bool) -> (r: Option<String>)
    ensures
        match outcome.status(connect) {
            Some(code) => r matches Some(v) && v@ == response_text(code, outcome.reason()),
            None => r is None,
        },
{
    let reason: &str = match outcome {
        HttpOutcome::Refused(e) => "Bad Request",
        HttpOutcome::Blocked => "Forbidden",
        HttpOutcome::Connected => "Connection Established",
        HttpOutcome::ConnectFailed => "Bad Gateway",
    };
    match answer_code(outcome, connect) {
        Some(code) => Some(response(code, reason)),
        None => None,
    }
}

/// The bytes to forward first: the head of a CONNECT is negotiation, so only
/// what came behind it goes on; plain requests go on as they are.
pub fn initial_bytes(connect: bool, head: &[u8], extra: &[u8]) -> (r: Vec<u8>)
    ensures
        r@ == if connect {
            extra@
        } else {
            head@ + extra@
        },
{
    let mut out: Vec<u8> = Vec::new();
    if !connect {
        append(&mut out, head);
    }
    append(&mut out, extra);
    assert(connect ==> out@ =~= extra@);
    assert(!connect ==> out@ =~= head@ + extra@);
    out
}

/// How requests are answered: a bad request line with 400, a blocked target with
/// 403, a failed connection with 502, and a connected one with 200 where the
/// request was a CONNECT; nothing else is answered.
pub proof fn law_answers(outcome: HttpOutcome, connect: bool)
    ensures
        outcome.status(connect) == Some(400u16) <==> outcome == HttpOutcome::Refused(
            HttpError::BadRequestLine,
        ),
        outcome.status(connect) == Some(403u16) <==> outcome == HttpOutcome::Blocked,
        outcome.status(connect) == Some(502u16) <==> outcome == HttpOutcome::ConnectFailed,
        outcome.status(connect) == Some(200u16) <==> outcome == HttpOutcome::Connected && connect,
        outcome.status(connect) matches Some(code) ==> code == 400 || code == 403 || code == 502
            || code == 200,
        outcome.status(connect) == Some(400u16) ==> outcome.reason() == "Bad Request"@,
        outcome.status(connect) == Some(403u16) ==> outcome.reason() == "Forbidden"@,
        outcome.status(connect) == Some(502u16) ==> outcome.reason() == "Bad Gateway"@,
        outcome.status(connect) == Some(200u16) ==> outcome.reason() == "Connection Established"@,
{
}

} // verus!
