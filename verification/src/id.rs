//! Identifiers of the Matrix network.

use ruma::{RoomId, ServerName, UserId};
use vstd::prelude::*;

use crate::text::{chars_of, first_at, string_of};

verus! {

/// What `ruma::ServerName::parse` answers for a text: nothing where it accepts the text, and the
/// text of its error where it does not.
pub uninterp spec fn server_name_error(s: Seq<char>) -> Option<Seq<char>>;

/// Calls `ruma::ServerName::parse`. The claim is that whether it accepts a text, and the text of
/// its error, depend on the text alone.
#[verifier::external_body]
fn check_server_name(s: &str) -> (res: Result<(), String>)
    ensures
        match res {
            Ok(_) => server_name_error(s@) is None,
            Err(e) => server_name_error(s@) == Some(e@),
        },
{
    match ServerName::parse(s) {
        Ok(_) => Ok(()),
        Err(e) => Err(e.to_string()),
    }
}

/// What `ruma::RoomId::parse` answers for a text: nothing where it accepts the text, and the text
/// of its error where it does not.
pub uninterp spec fn room_id_error(s: Seq<char>) -> Option<Seq<char>>;

/// Calls `ruma::RoomId::parse`. The claim is that whether it accepts a text, and the text of its
/// error, depend on the text alone.
#[verifier::external_body]
pub(crate) fn check_room_id(s: &str) -> (res: Result<(), String>)
    ensures
        match res {
            Ok(_) => room_id_error(s@) is None,
            Err(e) => room_id_error(s@) == Some(e@),
        },
{
    match RoomId::parse(s) {
        Ok(_) => Ok(()),
        Err(e) => Err(e.to_string()),
    }
}

/// What `ruma::UserId::parse` answers for a text: nothing where it accepts the text, and the text
/// of its error where it does not.
pub uninterp spec fn user_id_error(s: Seq<char>) -> Option<Seq<char>>;

/// Calls `ruma::UserId::parse`. The claim is that whether it accepts a text, and the text of its
/// error, depend on the text alone.
#[verifier::external_body]
pub(crate) fn check_user_id(s: &str) -> (res: Result<(), String>)
    ensures
        match res {
            Ok(_) => user_id_error(s@) is None,
            Err(e) => user_id_error(s@) == Some(e@),
        },
{
    match UserId::parse(s) {
        Ok(_) => Ok(()),
        Err(e) => Err(e.to_string()),
    }
}

/// The host of a server name: all of it up to the closing bracket of an address in brackets, or
/// else up to the colon before the port.
pub open spec fn host_part(s: Seq<char>) -> Seq<char> {
    if s.contains(']') {
        s.take(first_at(s, ']', 0) + 1)
    } else {
        s.take(first_at(s, ':', 0))
    }
}

/// The name of a server.
pub struct HostName {
    name: String,
}

impl View for HostName {
    type V = Seq<char>;

    closed spec fn view(&self) -> Seq<char> {
        self.name@
    }
}

impl HostName {
    /// Reads the name of a server.
    pub fn parse(s: &str) -> (res: Result<HostName, String>)
        ensures
            match server_name_error(s@) {
                None => res matches Ok(h) && h@ == s@,
                Some(m) => res matches Err(e) && e@ == m,
            },
    {
        match check_server_name(s) {
            Ok(_) => Ok(HostName { name: s.to_owned() }),
            Err(e) => Err(e),
        }
    }

    /// The name as text.
    pub fn as_str(&self) -> (res: &str)
        ensures
            res@ == self@,
    {
        self.name.as_str()
    }

    /// The host of the server, without the port.
    pub fn host(&self) -> (res: String)
        ensures
            res@ == host_part(self@),
    {
        let chars = chars_of(self.name.as_str());
        let len: usize = chars.len();
        let bracket: usize = position(&chars, ']');
        if bracket < len {
            proof {
                assert(chars@[bracket as int] == ']');
            }
            string_of(&chars, 0, bracket + 1)
        } else {
            string_of(&chars, 0, position(&chars, ':'))
        }
    }
}

/// The position of the first character equal to `c`, or the length.
fn position(chars: &Vec<char>, c: char) -> (res: usize)
    ensures
        res == first_at(chars@, c, 0),
        res <= chars@.len(),
        res < chars@.len() ==> chars@[res as int] == c,
        res == chars@.len() ==> !chars@.contains(c),
{
    let mut i: usize = 0;
    while i < chars.len() && chars[i] != c
        invariant
            i <= chars@.len(),
            first_at(chars@, c, 0) == first_at(chars@, c, i as int),
            forall|j: int| 0 <= j < i ==> chars@[j] != c,
        decreases chars@.len() - i,
    {
        i = i + 1;
    }
    i
}

proof fn lemma_first_at(s: Seq<char>, c: char, rest: Seq<char>, from: int)
    requires
        0 <= from <= s.len(),
        !s.contains(c),
    ensures
        first_at(s + seq![c] + rest, c, from) == s.len(),
        first_at(s, c, from) == s.len(),
    decreases s.len() - from,
{
    let all = s + seq![c] + rest;
    if from < s.len() {
        assert(all[from] == s[from]);
        assert(s.contains(s[from]));
        lemma_first_at(s, c, rest, from + 1);
    } else {
        assert(all[from] == c);
    }
}

/// The host of a server name is what stands before the colon of the port, or all of it where there
/// is none. The colons of an address in brackets do not count.
pub proof fn law_host_stands_before_the_port(host: Seq<char>, port: Seq<char>)
    requires
        !port.contains(']'),
        !host.contains(']'),
    ensures
        !host.contains(':') ==> host_part(host + seq![':'] + port) == host,
        !host.contains(':') ==> host_part(host) == host,
        host_part(host + seq![']']) == host + seq![']'],
        host_part(host + seq![']'] + seq![':'] + port) == host + seq![']'],
{
    let named = host + seq![':'] + port;
    assert(!named.contains(']')) by {
        if named.contains(']') {
            let k = choose|k: int| 0 <= k < named.len() && named[k] == ']';
            if k < host.len() {
                assert(host[k] == ']');
            } else if k > host.len() {
                assert(port[k - host.len() - 1] == ']');
            }
        }
    }
    if !host.contains(':') {
        lemma_first_at(host, ':', port, 0);
        assert(named.take(host.len() as int) =~= host);
        assert(host.take(host.len() as int) =~= host);
    }
    let tail = seq![':'] + port;
    let address = host + seq![']'];
    let whole = host + seq![']'] + tail;
    assert(whole =~= host + seq![']'] + seq![':'] + port);
    assert(address =~= host + seq![']'] + Seq::<char>::empty());
    lemma_first_at(host, ']', tail, 0);
    lemma_first_at(host, ']', Seq::empty(), 0);
    assert(whole[host.len() as int] == ']');
    assert(address[host.len() as int] == ']');
    assert(whole.take(host.len() as int + 1) =~= address);
    assert(address.take(host.len() as int + 1) =~= address);
}

} // verus!
