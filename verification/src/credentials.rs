//! The login credentials file: `KEY=VALUE` lines with the keys `USERNAME` and
//! `PASSWORD`.

use vstd::prelude::*;
use crate::text::{
    chars_eq, chars_vec, lemma_split_first_shorter, split_all, split_first, split_first_chars,
    string_from, trim, trim_chars, trim_end_cr, trim_end_cr_chars, upper, upper_chars,
};

verus! {

/// A library login.
#[derive(Clone, PartialEq, Eq)]
pub struct Credentials {
    pub username: String,
    pub password: String,
}

/// Why credentials could not be read.
#[derive(Debug)]
pub enum CredentialsError {
    Io(std::io::Error),
    Missing(&'static str),
}

pub open spec fn username_key() -> Seq<char> {
    seq!['U', 'S', 'E', 'R', 'N', 'A', 'M', 'E']
}

pub open spec fn password_key() -> Seq<char> {
    seq!['P', 'A', 'S', 'S', 'W', 'O', 'R', 'D']
}

/// The value a line gives to `key`: the line, without trailing carriage
/// returns, split at its first `=`; the part before it, trimmed and
/// upper-cased, names the key; everything after it is the value, verbatim.
pub open spec fn line_value(line: Seq<char>, key: Seq<char>) -> Option<Seq<char>> {
    match split_first(trim_end_cr(line), '=') {
        Some((k, v)) => if upper(trim(k)) == key {
            Some(v)
        } else {
            None
        },
        None => None,
    }
}

/// The value the last line naming `key` gives it.
pub open spec fn field_value(lines: Seq<Seq<char>>, key: Seq<char>) -> Option<Seq<char>>
    decreases lines.len(),
{
    if lines.len() == 0 {
        None
    } else {
        match line_value(lines.last(), key) {
            Some(v) => Some(v),
            None => field_value(lines.drop_last(), key),
        }
    }
}

/// The value a credentials file gives to `key`.
pub open spec fn credential_value(contents: Seq<char>, key: Seq<char>) -> Option<Seq<char>> {
    field_value(split_all(contents, '\n'), key)
}

/// The `Debug` rendering of a string: quoted, with escapes.
pub uninterp spec fn str_debug(s: Seq<char>) -> Seq<char>;

/// `<str as Debug>::fmt` through `format!("{:?}")`: the string quoted, with
/// escapes; a function of the string alone.
#[verifier::external_body]
fn debug_quoted(s: &str) -> (r: String)
    ensures
        r@ == str_debug(s@),
{
    format!("{:?}", s)
}

/// What credentials render as for logs: the username, and the password
/// replaced by `"<redacted>"`.
pub open spec fn credentials_debug(username: Seq<char>) -> Seq<char> {
    "Credentials { username: "@ + str_debug(username) + ", password: \"<redacted>\" }"@
}

/// The value of `key` after the lines seen so far and one more line.
fn take_line(line: &Vec<char>, key: &[char], cur: Option<Vec<char>>) -> (r: Option<Vec<char>>)
    ensures
        match line_value(line@, key@) {
            Some(v) => r matches Some(x) && x@ == v,
            None => r == cur,
        },
{
    let l = trim_end_cr_chars(line);
    match split_first_chars(&l, '=') {
        Some((k, v)) => {
            let kt = trim_chars(&k);
            let ku = upper_chars(kt.as_slice());
            if chars_eq(ku.as_slice(), key) {
                Some(v)
            } else {
                cur
            }
        },
        None => cur,
    }
}

impl Credentials {
    /// Reads the contents of a credentials file. Values are taken verbatim
    /// after the first `=` (special characters are fine); the last line for a
    /// key wins; a missing key is an error, `USERNAME` checked first.
    pub fn parse(contents: &str) -> (r: Result<Credentials, CredentialsError>)
        ensures
            match r {
                Ok(c) => credential_value(contents@, username_key()) == Some(c.username@)
                    && credential_value(contents@, password_key()) == Some(c.password@),
                Err(CredentialsError::Missing(k)) => if credential_value(
                    contents@,
                    username_key(),
                ) is None {
                    k@ == username_key()
                } else {
                    credential_value(contents@, password_key()) is None && k@ == password_key()
                },
                Err(CredentialsError::Io(_)) => false,
            },
    {
        let cs = chars_vec(contents);
        let ukey = ['U', 'S', 'E', 'R', 'N', 'A', 'M', 'E'];
        let pkey = ['P', 'A', 'S', 'S', 'W', 'O', 'R', 'D'];
        assert(ukey@ == username_key());
        assert(pkey@ == password_key());
        let mut username: Option<Vec<char>> = None;
        let mut password: Option<Vec<char>> = None;
        let mut rest = cs;
        let ghost mut seen: Seq<Seq<char>> = Seq::empty();
        loop
            invariant_except_break
                split_all(cs@, '\n') == seen + split_all(rest@, '\n'),
            invariant
                match field_value(seen, username_key()) {
                    Some(v) => username matches Some(x) && x@ == v,
                    None => username is None,
                },
                match field_value(seen, password_key()) {
                    Some(v) => password matches Some(x) && x@ == v,
                    None => password is None,
                },
                ukey@ == username_key(),
                pkey@ == password_key(),
            ensures
                split_all(cs@, '\n') == seen,
            decreases rest@.len(),
        {
            proof {
                lemma_split_first_shorter(rest@, '\n');
            }
            match split_first_chars(&rest, '\n') {
                Some((line, r)) => {
                    username = take_line(&line, ukey.as_slice(), username);
                    password = take_line(&line, pkey.as_slice(), password);
                    proof {
                        assert(split_all(rest@, '\n') == seq![line@] + split_all(r@, '\n'));
                        assert(seen.push(line@) + split_all(r@, '\n') =~= seen + (seq![line@]
                            + split_all(r@, '\n')));
                        assert(seen.push(line@).drop_last() =~= seen);
                        seen = seen.push(line@);
                    }
                    rest = r;
                },
                None => {
                    username = take_line(&rest, ukey.as_slice(), username);
                    password = take_line(&rest, pkey.as_slice(), password);
                    proof {
                        assert(split_all(rest@, '\n') == seq![rest@]);
                        assert(seen.push(rest@).drop_last() =~= seen);
                        assert(seen + seq![rest@] =~= seen.push(rest@));
                        seen = seen.push(rest@);
                        assert(split_all(cs@, '\n') == seen);
                    }
                    break;
                },
            }
        }
        proof {
            reveal_strlit("USERNAME");
            reveal_strlit("PASSWORD");
        }
        let u = match username {
            Some(u) => u,
            None => return Err(CredentialsError::Missing("USERNAME")),
        };
        let p = match password {
            Some(p) => p,
            None => return Err(CredentialsError::Missing("PASSWORD")),
        };
        Ok(Credentials { username: string_from(u.as_slice()), password: string_from(p.as_slice()) })
    }

    /// The rendering of these credentials for logs and panics; it shows the
    /// username and never the password.
    pub fn debug_string(&self) -> (r: String)
        ensures
            r@ == credentials_debug(self.username@),
    {
        let mut out = String::from_str("Credentials { username: ");
        out.append(debug_quoted(self.username.as_str()).as_str());
        out.append(", password: \"<redacted>\" }");
        out
    }
}

} // verus!
