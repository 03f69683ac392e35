//! Run configuration: the three inputs every run needs and the parsing of
//! the connection address of the form `user@host`.
use vstd::prelude::*;

verus! {

/// The three inputs of a run: the local source path, the remote destination
/// path, and the connection address of the form `user@host`.
#[derive(Debug, Clone)]
pub struct CmdArgs {
    /// Source path to copy.
    pub source: String,
    /// Destination path.
    pub destination: String,
    /// Connection address in the format `user@host`.
    pub ssh: String,
}

/// A fatal configuration fault, surfaced before any work is attempted.
#[derive(Debug, Clone, Copy, PartialEq, Eq, Structural)]
pub enum ConfigError {
    /// The connection address does not have the form `user@host`
    /// with exactly one `@`.
    InvalidSshAddress,
}

/// Holds iff `s` contains exactly one `@`.
pub open spec fn has_single_at(s: Seq<char>) -> bool {
    exists|i: int|
        0 <= i < s.len() && s[i] == '@' && (forall|j: int|
            0 <= j < s.len() && #[trigger] s[j] == '@' ==> j == i)
}

/// Splits a connection address at its single `@` into `(user, host)`.
/// An address with no `@`, or with more than one, is rejected.
pub fn split_ssh_address(s: &str) -> (r: Result<(String, String), ConfigError>)
    ensures
        r is Ok <==> has_single_at(s@),
        r matches Ok(p) ==> {
            &&& s@ == p.0@ + seq!['@'] + p.1@
            &&& !p.0@.contains('@')
            &&& !p.1@.contains('@')
        },
{
    let n = s.unicode_len();
    let mut first: Option<usize> = None;
    let mut second: bool = false;
    let mut i: usize = 0;
    while i < n
        invariant
            0 <= i <= n,
            n == s@.len(),
            match first {
                None => forall|j: int| 0 <= j < i ==> s@[j] != '@',
                Some(k) => {
                    &&& 0 <= k < i
                    &&& s@[k as int] == '@'
                    &&& forall|j: int| 0 <= j < k ==> s@[j] != '@'
                    &&& !second ==> forall|j: int| k < j < i ==> s@[j] != '@'
                },
            },
            second ==> (first matches Some(k) && exists|j: int|
                k < j < i && #[trigger] s@[j] == '@'),
        decreases n - i,
    {
        let c = s.get_char(i);
        if c == '@' {
            match first {
                None => {
                    first = Some(i);
                },
                Some(_) => {
                    second = true;
                },
            }
        }
        i += 1;
    }
    match first {
        None => {
            proof {
                assert(forall|j: int| 0 <= j < s@.len() ==> s@[j] != '@');
            }
            Err(ConfigError::InvalidSshAddress)
        },
        Some(k) => {
            if second {
                proof {
                    let k0 = k as int;
                    let j0 = choose|j: int| k0 < j < n && #[trigger] s@[j] == '@';
                    assert forall|i0: int|
                        !(0 <= i0 < s@.len() && s@[i0] == '@' && (forall|j: int|
                            0 <= j < s@.len() && #[trigger] s@[j] == '@' ==> j == i0)) by {
                        if 0 <= i0 < s@.len() && s@[i0] == '@' {
                            if i0 != k0 {
                                assert(s@[k0] == '@');
                            } else {
                                assert(s@[j0] == '@');
                            }
                        }
                    }
                }
                Err(ConfigError::InvalidSshAddress)
            } else {
                let user_part = s.substring_char(0, k);
                let host_part = s.substring_char(k + 1, n);
                let user = String::from_str(user_part);
                let host = String::from_str(host_part);
                proof {
                    assert(user@ == s@.subrange(0, k as int));
                    assert(host@ == s@.subrange(k + 1, n as int));
                    assert(s@ =~= user@ + seq!['@'] + host@);
                    assert(!user@.contains('@')) by {
                        assert forall|j: int| 0 <= j < user@.len() implies user@[j] != '@' by {
                            assert(user@[j] == s@[j]);
                        }
                    }
                    assert(!host@.contains('@')) by {
                        assert forall|j: int| 0 <= j < host@.len() implies host@[j] != '@' by {
                            assert(host@[j] == s@[j + k + 1]);
                        }
                    }
                    assert(has_single_at(s@)) by {
                        let k0 = k as int;
                        assert(s@[k0] == '@');
                        assert(forall|j: int|
                            0 <= j < s@.len() && #[trigger] s@[j] == '@' ==> j == k0);
                    }
                }
                Ok((user, host))
            }
        },
    }
}

} // verus!
