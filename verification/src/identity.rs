//! The identity line component: a commit names an author and a committer,
//! each written on one header line as
//! `<role> <name> <<email>> <timestamp> <timezone-offset>`.

use crate::errors::GitObjectError;
use crate::text::{
    dec_int, find_char, find_in, i64_to_dec, lemma_dec_int_chars, lemma_find_char_concat,
    lemma_find_from_as_suffix, lemma_parse_dec_int, parse_dec, parse_dec_i64,
};
use vstd::prelude::*;

verus! {

/// A person: a name and an email address.
#[derive(Clone, Debug, PartialEq)]
pub struct GitUser {
    pub name: String,
    pub email: String,
}

pub ghost struct UserView {
    pub name: Seq<char>,
    pub email: Seq<char>,
}

impl View for GitUser {
    type V = UserView;

    open spec fn view(&self) -> UserView {
        UserView { name: self.name@, email: self.email@ }
    }
}

impl GitUser {
    pub fn new(name: String, email: String) -> (r: GitUser)
        ensures
            r@ == (UserView { name: name@, email: email@ }),
    {
        GitUser { name, email }
    }
}

/// An author or committer record: who, when (seconds since the epoch), and
/// in which timezone offset (for example `+0000`).
#[derive(Clone, Debug, PartialEq)]
pub struct GitCommitAuthor {
    pub user: GitUser,
    pub date_seconds: i64,
    pub timezone: String,
}

pub ghost struct IdentityView {
    pub name: Seq<char>,
    pub email: Seq<char>,
    pub date_seconds: int,
    pub timezone: Seq<char>,
}

impl View for GitCommitAuthor {
    type V = IdentityView;

    open spec fn view(&self) -> IdentityView {
        IdentityView {
            name: self.user.name@,
            email: self.user.email@,
            date_seconds: self.date_seconds as int,
            timezone: self.timezone@,
        }
    }
}

/// How an identity is written inside a header line: the role token is not
/// part of it; the commit codec prepends `"author "` or `"committer "`.
pub open spec fn format_identity(idv: IdentityView) -> Seq<char> {
    idv.name + seq![' ', '<'] + idv.email + seq!['>', ' '] + dec_int(idv.date_seconds) + seq![' ']
        + idv.timezone
}

/// What a full header line `<role> <name> <<email>> <timestamp> <timezone>`
/// parses to. The role token is skipped without being validated; the
/// timestamp must be a signed decimal that fits a 64-bit signed integer; the
/// timezone offset is whatever follows the timestamp's separating space.
pub open spec fn parse_identity(line: Seq<char>) -> Option<IdentityView> {
    match find_char(line, ' ') {
        None => None,
        Some(sp) => {
            let rest = line.skip(sp + 1);
            match find_char(rest, '<') {
                None => None,
                Some(lt) => if lt < 1 || rest[lt - 1] != ' ' {
                    None
                } else {
                    let name = rest.take(lt - 1);
                    let rest2 = rest.skip(lt + 1);
                    match find_char(rest2, '>') {
                        None => None,
                        Some(gt) => {
                            let email = rest2.take(gt);
                            let after = rest2.skip(gt + 1);
                            if after.len() < 1 || after[0] != ' ' {
                                None
                            } else {
                                let ts_rest = after.skip(1);
                                match find_char(ts_rest, ' ') {
                                    None => None,
                                    Some(sp2) => {
                                        let ts_str = ts_rest.take(sp2);
                                        let tz = ts_rest.skip(sp2 + 1);
                                        match parse_dec(ts_str) {
                                            None => None,
                                            Some(v) => if i64::MIN <= v <= i64::MAX {
                                                Some(
                                                    IdentityView {
                                                        name,
                                                        email,
                                                        date_seconds: v,
                                                        timezone: tz,
                                                    },
                                                )
                                            } else {
                                                None
                                            },
                                        }
                                    },
                                }
                            }
                        },
                    }
                },
            }
        },
    }
}

impl GitCommitAuthor {
    pub fn new(user: GitUser, date_seconds: i64, timezone: String) -> (r: GitCommitAuthor)
        ensures
            r@ == (IdentityView {
                name: user@.name,
                email: user@.email,
                date_seconds: date_seconds as int,
                timezone: timezone@,
            }),
    {
        GitCommitAuthor { user, date_seconds, timezone }
    }

    pub fn get_user(&self) -> (r: &GitUser)
        ensures
            r@.name == self@.name,
            r@.email == self@.email,
    {
        &self.user
    }

    /// Parse one header line, role token included.
    pub fn from_string(line: &str) -> (r: Result<GitCommitAuthor, GitObjectError>)
        ensures
            r is Ok <==> parse_identity(line@) is Some,
            r matches Ok(a) ==> Some(a@) == parse_identity(line@),
            r matches Err(e) ==> e == GitObjectError::InvalidCommitFile,
    {
        let n = line.unicode_len();
        let ghost lv = line@;
        let sp = match find_in(line, 0, ' ') {
            Some(sp) => sp,
            None => { return Err(GitObjectError::InvalidCommitFile) },
        };
        let ghost rest = lv.skip(sp + 1);
        proof {
            lemma_find_from_as_suffix(lv, sp + 1, '<');
        }
        let lt = match find_in(line, sp + 1, '<') {
            Some(lt) => lt,
            None => { return Err(GitObjectError::InvalidCommitFile) },
        };
        proof {
            assert(find_char(rest, '<') == Some(lt - sp - 1));
        }
        if lt < sp + 2 || line.get_char(lt - 1) != ' ' {
            proof {
                assert(lt >= sp + 2 ==> rest[lt - sp - 2] == lv[lt - 1]);
            }
            return Err(GitObjectError::InvalidCommitFile);
        }
        let name = line.substring_char(sp + 1, lt - 1);
        proof {
            assert(name@ =~= rest.take(lt - sp - 2));
            assert(rest[lt - sp - 2] == lv[lt - 1]);
        }
        let ghost rest2 = rest.skip(lt - sp as int);
        proof {
            assert(rest2 =~= lv.skip(lt + 1));
            lemma_find_from_as_suffix(lv, lt + 1, '>');
        }
        let gt = match find_in(line, lt + 1, '>') {
            Some(gt) => gt,
            None => { return Err(GitObjectError::InvalidCommitFile) },
        };
        proof {
            assert(find_char(rest2, '>') == Some(gt - lt - 1));
        }
        let email = line.substring_char(lt + 1, gt);
        proof {
            assert(email@ =~= rest2.take(gt - lt - 1));
        }
        let ghost after = rest2.skip(gt - lt as int);
        proof {
            assert(after =~= lv.skip(gt + 1));
        }
        if gt + 1 >= n || line.get_char(gt + 1) != ' ' {
            proof {
                assert(gt + 1 < n ==> after[0] == lv[gt + 1]);
            }
            return Err(GitObjectError::InvalidCommitFile);
        }
        proof {
            assert(after[0] == lv[gt + 1]);
        }
        let ghost ts_rest = after.skip(1);
        proof {
            assert(ts_rest =~= lv.skip(gt + 2));
            lemma_find_from_as_suffix(lv, gt + 2, ' ');
        }
        let sp2 = match find_in(line, gt + 2, ' ') {
            Some(sp2) => sp2,
            None => { return Err(GitObjectError::InvalidCommitFile) },
        };
        proof {
            assert(find_char(ts_rest, ' ') == Some(sp2 - gt - 2));
        }
        let ts_str = line.substring_char(gt + 2, sp2);
        let tz = line.substring_char(sp2 + 1, n);
        proof {
            assert(ts_str@ =~= ts_rest.take(sp2 - gt - 2));
            assert(tz@ =~= ts_rest.skip(sp2 - gt - 1));
        }
        match parse_dec_i64(ts_str) {
            None => Err(GitObjectError::InvalidCommitFile),
            Some(v) => Ok(
                GitCommitAuthor {
                    user: GitUser { name: name.to_owned(), email: email.to_owned() },
                    date_seconds: v,
                    timezone: tz.to_owned(),
                },
            ),
        }
    }

    /// Write the identity as `<name> <<email>> <timestamp> <timezone>`, with
    /// a trailing newline when asked for, so that the commit encoder can omit
    /// it on the last header line.
    pub fn to_string(&self, with_newline: bool) -> (r: String)
        ensures
            r@ == format_identity(self@) + if with_newline {
                seq!['\n']
            } else {
                Seq::<char>::empty()
            },
    {
        let mut r = self.user.name.clone();
        r.append(" <");
        r.append(self.user.email.as_str());
        r.append("> ");
        r.append(i64_to_dec(self.date_seconds).as_str());
        r.append(" ");
        r.append(self.timezone.as_str());
        if with_newline {
            r.append("\n");
        }
        proof {
            reveal_strlit(" <");
            reveal_strlit("> ");
            reveal_strlit(" ");
            reveal_strlit("\n");
            assert(" <"@ =~= seq![' ', '<']);
            assert("> "@ =~= seq!['>', ' ']);
            assert(" "@ =~= seq![' ']);
            if with_newline {
                assert(r@ =~= format_identity(self@) + seq!['\n']);
            } else {
                assert(r@ =~= format_identity(self@) + Seq::<char>::empty());
            }
        }
        r
    }
}

/// Law: a header line written for an identity reads back as that identity.
///
/// The role token must hold no space, the name no `'<'`, the email no `'>'`;
/// those characters are what the grammar splits on.
#[verifier::rlimit(80)]
pub proof fn lemma_identity_round_trip(role: Seq<char>, idv: IdentityView)
    requires
        role.len() > 0,
        forall|k: int| 0 <= k < role.len() ==> role[k] != ' ',
        forall|k: int| 0 <= k < idv.name.len() ==> idv.name[k] != '<',
        forall|k: int| 0 <= k < idv.email.len() ==> idv.email[k] != '>',
        i64::MIN <= idv.date_seconds <= i64::MAX,
    ensures
        parse_identity(role + seq![' '] + format_identity(idv)) == Some(idv),
{
    let line = role + seq![' '] + format_identity(idv);
    let fmt = format_identity(idv);
    let dec = dec_int(idv.date_seconds);
    lemma_dec_int_chars(idv.date_seconds);

    // the role separator is the first space
    lemma_find_char_concat(role, seq![' '] + fmt, ' ');
    assert(find_char(seq![' '] + fmt, ' ') == Some(0int));
    assert(role + (seq![' '] + fmt) =~= line);
    assert(find_char(line, ' ') == Some(role.len() as int));
    let rest = line.skip(role.len() as int + 1);
    assert(rest =~= fmt);

    // the name ends at the first '<'
    let a1 = idv.name + seq![' '];
    let b1 = seq!['<'] + idv.email + seq!['>', ' '] + dec + seq![' '] + idv.timezone;
    assert(rest =~= a1 + b1);
    assert(find_char(b1, '<') == Some(0int));
    lemma_find_char_concat(a1, b1, '<');
    let lt = a1.len() as int;
    assert(find_char(rest, '<') == Some(lt));
    assert(rest[lt - 1] == ' ');
    assert(rest.take(lt - 1) =~= idv.name);

    // the email ends at the first '>'
    let rest2 = rest.skip(lt + 1);
    let b2 = seq!['>', ' '] + dec + seq![' '] + idv.timezone;
    assert(rest2 =~= idv.email + b2);
    assert(find_char(b2, '>') == Some(0int));
    lemma_find_char_concat(idv.email, b2, '>');
    let gt = idv.email.len() as int;
    assert(find_char(rest2, '>') == Some(gt));
    assert(rest2.take(gt) =~= idv.email);

    // a space, then the timestamp up to the next space
    let after = rest2.skip(gt + 1);
    assert(after =~= seq![' '] + dec + seq![' '] + idv.timezone);
    assert(after[0] == ' ');
    let ts_rest = after.skip(1);
    assert(ts_rest =~= dec + (seq![' '] + idv.timezone));
    assert(forall|k: int| 0 <= k < dec.len() ==> dec[k] != ' ') by {
        assert(' ' as int == 32);
        assert('-' as int == 45);
    }
    assert(find_char(seq![' '] + idv.timezone, ' ') == Some(0int));
    lemma_find_char_concat(dec, seq![' '] + idv.timezone, ' ');
    let sp2 = dec.len() as int;
    assert(find_char(ts_rest, ' ') == Some(sp2));
    assert(ts_rest.take(sp2) =~= dec);
    assert(ts_rest.skip(sp2 + 1) =~= idv.timezone);
    lemma_parse_dec_int(idv.date_seconds);
}

} // verus!
