//! The wire protocol parser.  A request is a single line of text; the two
//! recognized shapes are `GET /get?key=<key>` and `GET /set?<key>=<value>`.
//! The line is split on the literal markers `key=`, `set?` and `=`, each of
//! which must occur exactly once, and the payload ends at the first
//! whitespace.

use vstd::prelude::*;
use vstd::string::*;
use crate::error::{ParseError, ServerError, spec_message};
use crate::text::{
    first_line,
    first_match_from,
    is_prefix,
    match_count,
    scan_matches,
    scan_spaces,
    scan_token,
    space_len,
    starts_with_str,
    take_first_line,
    token_len,
};

verus! {

/// A parsed request: fetch the value under a key, or bind a key to a value.
#[derive(Debug)]
pub enum Request {
    Get(String),
    Put(String, String),
}

/// What parsing a `GET /get?key=...` line yields: the marker `key=` must
/// occur exactly once, and the key is what follows it up to (but not
/// including) the first whitespace.  An empty key is a missing one.
pub open spec fn spec_parse_get(line: Seq<char>) -> Result<Seq<char>, ParseError> {
    let marker = "key="@;
    if match_count(line, marker) != 1 {
        Err(ParseError::InvalidRequest { code: 1 })
    } else {
        let rest = line.skip(first_match_from(line, marker, 0) + marker.len());
        let key = rest.take(token_len(rest) as int);
        if key.len() == 0 {
            Err(ParseError::MissingKey)
        } else {
            Ok(key)
        }
    }
}

/// What parsing a `GET /set?...` line yields: the marker `set?` must occur
/// exactly once; the first whitespace-delimited token after it must contain
/// exactly one `=`, which splits it into the key and the value (either of
/// which may be empty).
pub open spec fn spec_parse_set(line: Seq<char>) -> Result<(Seq<char>, Seq<char>), ParseError> {
    let marker = "set?"@;
    if match_count(line, marker) != 1 {
        Err(ParseError::InvalidRequest { code: 2 })
    } else {
        let rest = line.skip(first_match_from(line, marker, 0) + marker.len());
        let trimmed = rest.skip(space_len(rest) as int);
        if trimmed.len() == 0 {
            Err(ParseError::InvalidRequest { code: 4 })
        } else {
            let token = trimmed.take(token_len(trimmed) as int);
            if match_count(token, "="@) != 1 {
                Err(ParseError::InvalidRequest { code: 3 })
            } else {
                let eq = first_match_from(token, "="@, 0);
                Ok((token.take(eq), token.skip(eq + 1)))
            }
        }
    }
}

/// Extracts the key from a `GET /get?key=...` request line.
pub fn parse_get(request: &str) -> (r: Result<String, ParseError>)
    ensures
        spec_parse_get(request@) matches Ok(k) ==> r matches Ok(key) && key@ == k,
        spec_parse_get(request@) matches Err(e) ==> r matches Err(re) && re == e,
{
    proof {
        reveal_strlit("key=");
    }
    let (count, start) = scan_matches(request, "key=");
    if count != 1 {
        return Err(ParseError::InvalidRequest { code: 1 });
    }
    let sl = request.unicode_len();
    let rest = request.substring_char(start + 4, sl);
    proof {
        assert(rest@ =~= request@.skip(start + 4));
    }
    let key_len = scan_token(rest);
    if key_len == 0 {
        return Err(ParseError::MissingKey);
    }
    let key = rest.substring_char(0, key_len);
    proof {
        assert(key@ =~= rest@.take(key_len as int));
    }
    Ok(String::from_str(key))
}

/// Extracts the key and the value from a `GET /set?...` request line.
pub fn parse_set(request: &str) -> (r: Result<(String, String), ParseError>)
    ensures
        spec_parse_set(request@) matches Ok(kv) ==> r matches Ok(pair) && pair.0@ == kv.0
            && pair.1@ == kv.1,
        spec_parse_set(request@) matches Err(e) ==> r matches Err(re) && re == e,
{
    proof {
        reveal_strlit("set?");
        reveal_strlit("=");
    }
    let (count, start) = scan_matches(request, "set?");
    if count != 1 {
        return Err(ParseError::InvalidRequest { code: 2 });
    }
    let sl = request.unicode_len();
    let rest = request.substring_char(start + 4, sl);
    proof {
        assert(rest@ =~= request@.skip(start + 4));
    }
    let spaces = scan_spaces(rest);
    let rl = rest.unicode_len();
    let trimmed = rest.substring_char(spaces, rl);
    proof {
        assert(trimmed@ =~= rest@.skip(spaces as int));
    }
    if trimmed.unicode_len() == 0 {
        return Err(ParseError::InvalidRequest { code: 4 });
    }
    let token_end = scan_token(trimmed);
    let token = trimmed.substring_char(0, token_end);
    proof {
        assert(token@ =~= trimmed@.take(token_end as int));
    }
    let (eq_count, eq) = scan_matches(token, "=");
    if eq_count != 1 {
        return Err(ParseError::InvalidRequest { code: 3 });
    }
    let tl = token.unicode_len();
    let key = token.substring_char(0, eq);
    let value = token.substring_char(eq + 1, tl);
    proof {
        assert(key@ =~= token@.take(eq as int));
        assert(value@ =~= token@.skip(eq + 1));
    }
    Ok((String::from_str(key), String::from_str(value)))
}

/// Turns a raw request buffer into a [`Request`].  Only the first line
/// matters; the verb decides which parser runs, and an unrecognized verb is
/// reported apart from a malformed recognized request.
pub fn parse_request(request: &str) -> (r: Result<Request, ServerError>)
    ensures
        request@.len() == 0 ==> (r matches Err(e) && e == ServerError::NoRequestFound),
        request@.len() > 0 && is_prefix("GET /get?key="@, first_line(request@)) ==> match spec_parse_get(
            first_line(request@),
        ) {
            Ok(k) => r matches Ok(req) && req matches Request::Get(key) && key@ == k,
            Err(e) => r matches Err(se) && se matches ServerError::ParseError { reason }
                && reason@ == spec_message(e),
        },
        request@.len() > 0 && !is_prefix("GET /get?key="@, first_line(request@)) && is_prefix(
            "GET /set?"@,
            first_line(request@),
        ) ==> match spec_parse_set(first_line(request@)) {
            Ok(kv) => r matches Ok(req) && req matches Request::Put(key, value) && key@ == kv.0
                && value@ == kv.1,
            Err(e) => r matches Err(se) && se matches ServerError::ParseError { reason }
                && reason@ == spec_message(e),
        },
        request@.len() > 0 && !is_prefix("GET /get?key="@, first_line(request@)) && !is_prefix(
            "GET /set?"@,
            first_line(request@),
        ) ==> (r matches Err(e) && e == ServerError::InvalidRequest),
{
    if request.unicode_len() == 0 {
        return Err(ServerError::NoRequestFound);
    }
    let line = take_first_line(request);
    if starts_with_str(line, "GET /get?key=") {
        match parse_get(line) {
            Ok(key) => Ok(Request::Get(key)),
            Err(e) => {
                let reason = e.message();
                Err(ServerError::ParseError { reason })
            },
        }
    } else if starts_with_str(line, "GET /set?") {
        match parse_set(line) {
            Ok((key, value)) => Ok(Request::Put(key, value)),
            Err(e) => {
                let reason = e.message();
                Err(ServerError::ParseError { reason })
            },
        }
    } else {
        Err(ServerError::InvalidRequest)
    }
}

} // verus!
