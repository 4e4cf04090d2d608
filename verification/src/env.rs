//! Settings read from the process environment.

use vstd::prelude::*;
use vstd::string::*;
use crate::address::ipv4_octets;
use crate::address::lemma_numeral_push;
use crate::address::lemma_split_join;
use crate::address::lemma_split_plain;
use crate::address::number;
use crate::address::octet;
use crate::address::socket_address;
use crate::address::split;
use crate::address::BindAddress;
use crate::address::BindAddressView;
use crate::error::StartupError;
use crate::error::StartupErrorView;

verus! {

/// Why a variable could not be read from the environment.
#[derive(Debug, Clone, PartialEq, Eq)]
pub enum VarError {
    /// The variable is not set.
    NotPresent,
    /// The variable is set to something that is not Unicode text. The field
    /// holds a printable rendering of the raw value.
    NotUnicode(String),
}

/// A `VarError` with its text as a sequence of characters.
pub enum VarErrorView {
    NotPresent,
    NotUnicode(Seq<char>),
}

impl View for VarError {
    type V = VarErrorView;

    open spec fn view(&self) -> VarErrorView {
        match self {
            VarError::NotPresent => VarErrorView::NotPresent,
            VarError::NotUnicode(raw) => VarErrorView::NotUnicode(raw@),
        }
    }
}

impl VarErrorView {
    /// The message that the error shows.
    pub open spec fn message(self) -> Seq<char> {
        match self {
            VarErrorView::NotPresent => "environment variable not found"@,
            VarErrorView::NotUnicode(raw) => "environment variable was not valid unicode: "@ + raw,
        }
    }
}

impl VarError {
    /// The message that the error shows.
    pub fn message(&self) -> (text: String)
        ensures
            text@ == self@.message(),
    {
        match self {
            VarError::NotPresent => String::from_str("environment variable not found"),
            VarError::NotUnicode(raw) => {
                let mut text = String::from_str("environment variable was not valid unicode: ");
                text.append(raw.as_str());
                text
            },
        }
    }
}

/// The log level that a lookup of `RUST_LOG` stands for: the value as it was
/// found, or `info` where none could be read.
pub open spec fn log_level_of(lookup: Result<String, VarError>) -> Seq<char> {
    match lookup {
        Ok(level) => level@,
        Err(_) => "info"@,
    }
}

/// The log level to run with, given what the lookup of `RUST_LOG` gave. The
/// value is handed on as it is: what it means is for the logger to say.
pub fn get_log_lev(lookup: Result<String, VarError>) -> (level: String)
    ensures
        level@ == log_level_of(lookup),
{
    match lookup {
        Ok(level) => level,
        Err(_) => String::from_str("info"),
    }
}

/// The text that a lookup of `LEPTOS_SITE_ADDR` stands for: the value as it
/// was found, or `127.0.0.1:3000` where none could be read.
pub open spec fn bind_address_text(lookup: Result<String, VarError>) -> Seq<char> {
    match lookup {
        Ok(text) => text@,
        Err(_) => "127.0.0.1:3000"@,
    }
}

/// The address to listen on where none is set: port 3000 of the loopback
/// host `127.0.0.1`.
pub open spec fn default_bind_address() -> BindAddressView {
    BindAddressView::V4 { octets: seq![127u8, 0u8, 0u8, 1u8], port: 3000 }
}

/// The message of the error for a `LEPTOS_SITE_ADDR` that spells no
/// address. It quotes the text as it was read.
pub open spec fn bind_address_failure(text: Seq<char>) -> Seq<char> {
    "Failed to parse LEPTOS_SITE_ADDR '"@ + text + "': invalid socket address syntax"@
}

/// The text that stands in for a missing `LEPTOS_SITE_ADDR` spells the
/// default address.
pub proof fn lemma_default_bind_address()
    ensures
        socket_address("127.0.0.1:3000"@) == Some(default_bind_address()),
{
    reveal_strlit("127.0.0.1:3000");
    let text = "127.0.0.1:3000"@;
    let host = seq!['1', '2', '7', '.', '0', '.', '0', '.', '1'];
    let port = seq!['3', '0', '0', '0'];
    assert(text =~= host + seq![':'] + port);
    lemma_split_join(host, port, ':');
    lemma_split_plain(host, ':');
    lemma_split_plain(port, ':');
    assert(split(text, ':') =~= seq![host, port]);
    assert(port =~= Seq::<char>::empty().push('3').push('0').push('0').push('0'));
    lemma_numeral_push(Seq::<char>::empty(), '3', 10);
    lemma_numeral_push(Seq::<char>::empty().push('3'), '0', 10);
    lemma_numeral_push(Seq::<char>::empty().push('3').push('0'), '0', 10);
    lemma_numeral_push(Seq::<char>::empty().push('3').push('0').push('0'), '0', 10);
    assert(number(port, 10, 65535) == Some(3000int));
    assert(text.take(text.len() - port.len() - 1) =~= host);
    let a = seq!['1', '2', '7'];
    let b = seq!['0'];
    let c = seq!['1'];
    assert(host =~= a + seq!['.'] + (b + seq!['.'] + (b + seq!['.'] + c)));
    lemma_split_join(a, b + seq!['.'] + (b + seq!['.'] + c), '.');
    lemma_split_join(b, b + seq!['.'] + c, '.');
    lemma_split_join(b, c, '.');
    lemma_split_plain(a, '.');
    lemma_split_plain(b, '.');
    lemma_split_plain(c, '.');
    assert(split(host, '.') =~= seq![a, b, b, c]);
    assert(a =~= Seq::<char>::empty().push('1').push('2').push('7'));
    lemma_numeral_push(Seq::<char>::empty(), '1', 10);
    lemma_numeral_push(Seq::<char>::empty().push('1'), '2', 10);
    lemma_numeral_push(Seq::<char>::empty().push('1').push('2'), '7', 10);
    assert(b =~= Seq::<char>::empty().push('0'));
    lemma_numeral_push(Seq::<char>::empty(), '0', 10);
    assert(c =~= Seq::<char>::empty().push('1'));
    assert(octet(a) == Some(127int));
    assert(octet(b) == Some(0int));
    assert(octet(c) == Some(1int));
    assert(ipv4_octets(host).unwrap() =~= seq![127u8, 0u8, 0u8, 1u8]);
}

/// The address to listen on, given what the lookup of `LEPTOS_SITE_ADDR`
/// gave. A value that was read must spell an address; without one the
/// default address is used.
pub fn get_bind_address(lookup: Result<String, VarError>) -> (result: Result<
    BindAddress,
    StartupError,
>)
    ensures
        match result {
            Ok(address) => socket_address(bind_address_text(lookup)) == Some(address@),
            Err(e) => socket_address(bind_address_text(lookup)) is None && e@
                == StartupErrorView::Configuration(bind_address_failure(bind_address_text(lookup))),
        },
        lookup is Err ==> (result matches Ok(address) && address@ == default_bind_address()),
{
    let text = match lookup {
        Ok(text) => text,
        Err(_) => String::from_str("127.0.0.1:3000"),
    };
    proof {
        lemma_default_bind_address();
    }
    match BindAddress::parse(text.as_str()) {
        Some(address) => Ok(address),
        None => {
            let mut message = String::from_str("Failed to parse LEPTOS_SITE_ADDR '");
            message.append(text.as_str());
            message.append("': invalid socket address syntax");
            Err(StartupError::Configuration(message))
        },
    }
}

} // verus!
