//! The message model: codes and classes, the header, and `Packet` with its
//! option map, token and payload, encoded and decoded by the codec.
use vstd::prelude::*;

use crate::codec::{
    append_bytes, copy_range, decode_options, empty_model, encode_options, entries_view,
    lemma_lower_bound_at, lemma_with_values_ordered, lower_bound, option_values, spec_decode,
    spec_encode, values_view, with_value_added, with_values, PacketModel, MAX_MESSAGE_LEN,
    PAYLOAD_MARKER,
};

verus! {

/// The two-bit message type of the header.
#[derive(Debug, PartialEq, Eq, Structural, Clone, Copy)]
pub enum PacketType {
    Confirmable,
    NonConfirmable,
    Acknowledgement,
    Reset,
    Invalid,
}

/// Request methods (class 0).
#[derive(Debug, PartialEq, Eq, Structural, Clone, Copy, Hash)]
pub enum Requests {
    Get,
    Post,
    Put,
    Delete,
}

/// Response codes (classes 2, 4 and 5).
#[derive(Debug, PartialEq, Eq, Structural, Clone, Copy)]
pub enum Responses {
    // 2.xx
    Created,
    Deleted,
    Valid,
    Changed,
    Content,
    // 4.xx
    BadRequest,
    Unauthorized,
    BadOption,
    Forbidden,
    NotFound,
    MethodNotAllowed,
    NotAcceptable,
    PreconditionFailed,
    RequestEntityTooLarge,
    UnsupportedContentFormat,
    // 5.xx
    InternalServerError,
    NotImplemented,
    BadGateway,
    ServiceUnavailable,
    GatewayTimeout,
    ProxyingNotSupported,
}

/// The semantic reading of the code byte.
#[derive(Debug, PartialEq, Eq, Structural, Clone, Copy)]
pub enum PacketClass {
    Empty,
    Request(Requests),
    Response(Responses),
    Reserved,
}

/// The code byte of a class; `Reserved` is written as `0xFF`.
pub open spec fn spec_class_to_code(class: PacketClass) -> u8 {
    match class {
        PacketClass::Empty => 0x00,
        PacketClass::Request(m) => match m {
            Requests::Get => 0x01,
            Requests::Post => 0x02,
            Requests::Put => 0x03,
            Requests::Delete => 0x04,
        },
        PacketClass::Response(r) => match r {
            Responses::Created => 0x41,
            Responses::Deleted => 0x42,
            Responses::Valid => 0x43,
            Responses::Changed => 0x44,
            Responses::Content => 0x45,
            Responses::BadRequest => 0x80,
            Responses::Unauthorized => 0x81,
            Responses::BadOption => 0x82,
            Responses::Forbidden => 0x83,
            Responses::NotFound => 0x84,
            Responses::MethodNotAllowed => 0x85,
            Responses::NotAcceptable => 0x86,
            Responses::PreconditionFailed => 0x8C,
            Responses::RequestEntityTooLarge => 0x8D,
            Responses::UnsupportedContentFormat => 0x8F,
            Responses::InternalServerError => 0x90,
            Responses::NotImplemented => 0x91,
            Responses::BadGateway => 0x92,
            Responses::ServiceUnavailable => 0x93,
            Responses::GatewayTimeout => 0x94,
            Responses::ProxyingNotSupported => 0x95,
        },
        PacketClass::Reserved => 0xFF,
    }
}

/// The class of a code byte; codes outside the table are `Reserved`.
pub open spec fn spec_code_to_class(code: u8) -> PacketClass {
    match code {
        0x00 => PacketClass::Empty,
        0x01 => PacketClass::Request(Requests::Get),
        0x02 => PacketClass::Request(Requests::Post),
        0x03 => PacketClass::Request(Requests::Put),
        0x04 => PacketClass::Request(Requests::Delete),
        0x41 => PacketClass::Response(Responses::Created),
        0x42 => PacketClass::Response(Responses::Deleted),
        0x43 => PacketClass::Response(Responses::Valid),
        0x44 => PacketClass::Response(Responses::Changed),
        0x45 => PacketClass::Response(Responses::Content),
        0x80 => PacketClass::Response(Responses::BadRequest),
        0x81 => PacketClass::Response(Responses::Unauthorized),
        0x82 => PacketClass::Response(Responses::BadOption),
        0x83 => PacketClass::Response(Responses::Forbidden),
        0x84 => PacketClass::Response(Responses::NotFound),
        0x85 => PacketClass::Response(Responses::MethodNotAllowed),
        0x86 => PacketClass::Response(Responses::NotAcceptable),
        0x8C => PacketClass::Response(Responses::PreconditionFailed),
        0x8D => PacketClass::Response(Responses::RequestEntityTooLarge),
        0x8F => PacketClass::Response(Responses::UnsupportedContentFormat),
        0x90 => PacketClass::Response(Responses::InternalServerError),
        0x91 => PacketClass::Response(Responses::NotImplemented),
        0x92 => PacketClass::Response(Responses::BadGateway),
        0x93 => PacketClass::Response(Responses::ServiceUnavailable),
        0x94 => PacketClass::Response(Responses::GatewayTimeout),
        0x95 => PacketClass::Response(Responses::ProxyingNotSupported),
        _ => PacketClass::Reserved,
    }
}

pub fn class_to_code(class: &PacketClass) -> (r: u8)
    ensures
        r == spec_class_to_code(*class),
{
    match *class {
        PacketClass::Empty => 0x00,
        PacketClass::Request(Requests::Get) => 0x01,
        PacketClass::Request(Requests::Post) => 0x02,
        PacketClass::Request(Requests::Put) => 0x03,
        PacketClass::Request(Requests::Delete) => 0x04,
        PacketClass::Response(Responses::Created) => 0x41,
        PacketClass::Response(Responses::Deleted) => 0x42,
        PacketClass::Response(Responses::Valid) => 0x43,
        PacketClass::Response(Responses::Changed) => 0x44,
        PacketClass::Response(Responses::Content) => 0x45,
        PacketClass::Response(Responses::BadRequest) => 0x80,
        PacketClass::Response(Responses::Unauthorized) => 0x81,
        PacketClass::Response(Responses::BadOption) => 0x82,
        PacketClass::Response(Responses::Forbidden) => 0x83,
        PacketClass::Response(Responses::NotFound) => 0x84,
        PacketClass::Response(Responses::MethodNotAllowed) => 0x85,
        PacketClass::Response(Responses::NotAcceptable) => 0x86,
        PacketClass::Response(Responses::PreconditionFailed) => 0x8C,
        PacketClass::Response(Responses::RequestEntityTooLarge) => 0x8D,
        PacketClass::Response(Responses::UnsupportedContentFormat) => 0x8F,
        PacketClass::Response(Responses::InternalServerError) => 0x90,
        PacketClass::Response(Responses::NotImplemented) => 0x91,
        PacketClass::Response(Responses::BadGateway) => 0x92,
        PacketClass::Response(Responses::ServiceUnavailable) => 0x93,
        PacketClass::Response(Responses::GatewayTimeout) => 0x94,
        PacketClass::Response(Responses::ProxyingNotSupported) => 0x95,
        PacketClass::Reserved => 0xFF,
    }
}

pub fn code_to_class(code: &u8) -> (r: PacketClass)
    ensures
        r == spec_code_to_class(*code),
{
    match *code {
        0x00 => PacketClass::Empty,
        0x01 => PacketClass::Request(Requests::Get),
        0x02 => PacketClass::Request(Requests::Post),
        0x03 => PacketClass::Request(Requests::Put),
        0x04 => PacketClass::Request(Requests::Delete),
        0x41 => PacketClass::Response(Responses::Created),
        0x42 => PacketClass::Response(Responses::Deleted),
        0x43 => PacketClass::Response(Responses::Valid),
        0x44 => PacketClass::Response(Responses::Changed),
        0x45 => PacketClass::Response(Responses::Content),
        0x80 => PacketClass::Response(Responses::BadRequest),
        0x81 => PacketClass::Response(Responses::Unauthorized),
        0x82 => PacketClass::Response(Responses::BadOption),
        0x83 => PacketClass::Response(Responses::Forbidden),
        0x84 => PacketClass::Response(Responses::NotFound),
        0x85 => PacketClass::Response(Responses::MethodNotAllowed),
        0x86 => PacketClass::Response(Responses::NotAcceptable),
        0x8C => PacketClass::Response(Responses::PreconditionFailed),
        0x8D => PacketClass::Response(Responses::RequestEntityTooLarge),
        0x8F => PacketClass::Response(Responses::UnsupportedContentFormat),
        0x90 => PacketClass::Response(Responses::InternalServerError),
        0x91 => PacketClass::Response(Responses::NotImplemented),
        0x92 => PacketClass::Response(Responses::BadGateway),
        0x93 => PacketClass::Response(Responses::ServiceUnavailable),
        0x94 => PacketClass::Response(Responses::GatewayTimeout),
        0x95 => PacketClass::Response(Responses::ProxyingNotSupported),
        _ => PacketClass::Reserved,
    }
}

/// The character of a decimal digit.
pub open spec fn digit_char(d: u8) -> char {
    match d {
        0 => '0',
        1 => '1',
        2 => '2',
        3 => '3',
        4 => '4',
        5 => '5',
        6 => '6',
        7 => '7',
        8 => '8',
        _ => '9',
    }
}

/// The dotted form `C.DD` of a code byte: the class (top three bits), a dot,
/// and the detail (low five bits) in two digits.
pub open spec fn spec_code_str(code: u8) -> Seq<char> {
    let detail = code % 32;
    seq![digit_char(code / 32), '.', digit_char(detail / 10), digit_char(detail % 10)]
}

/// Every class but `Reserved` survives a trip through its code byte, and the
/// dotted forms of the code and of its class agree.
pub proof fn lemma_class_code_round_trip(code: u8)
    ensures
        spec_code_to_class(code) != PacketClass::Reserved ==> {
            &&& spec_class_to_code(spec_code_to_class(code)) == code
            &&& spec_code_str(spec_class_to_code(spec_code_to_class(code))) == spec_code_str(code)
        },
{
}

fn digit_str(d: u8) -> (r: &'static str)
    requires
        d < 10,
    ensures
        r@ == seq![digit_char(d)],
{
    let r = match d {
        0 => "0",
        1 => "1",
        2 => "2",
        3 => "3",
        4 => "4",
        5 => "5",
        6 => "6",
        7 => "7",
        8 => "8",
        _ => "9",
    };
    proof {
        reveal_strlit("0");
        reveal_strlit("1");
        reveal_strlit("2");
        reveal_strlit("3");
        reveal_strlit("4");
        reveal_strlit("5");
        reveal_strlit("6");
        reveal_strlit("7");
        reveal_strlit("8");
        reveal_strlit("9");
        assert(r@ =~= seq![digit_char(d)]);
    }
    r
}

pub fn code_to_str(code: &u8) -> (r: String)
    ensures
        r@ == spec_code_str(*code),
{
    let class_code = *code / 32;
    let detail_code = *code % 32;
    let mut r = String::from_str(digit_str(class_code));
    proof {
        reveal_strlit(".");
    }
    r.append(".");
    r.append(digit_str(detail_code / 10));
    r.append(digit_str(detail_code % 10));
    assert(r@ =~= spec_code_str(*code));
    r
}

pub fn class_to_str(class: &PacketClass) -> (r: String)
    ensures
        r@ == spec_code_str(spec_class_to_code(*class)),
{
    code_to_str(&class_to_code(class))
}

pub open spec fn is_digit(c: char) -> bool {
    '0' <= c && c <= '9'
}

pub open spec fn digit_value(c: char) -> nat {
    (c as u32 - '0' as u32) as nat
}

/// The number that a string of decimal digits stands for.
pub open spec fn decimal_value(s: Seq<char>) -> nat
    decreases s.len(),
{
    if s.len() == 0 {
        0
    } else {
        decimal_value(s.drop_last()) * 10 + digit_value(s.last())
    }
}

/// A byte written as one or more decimal digits, at most 255.
pub open spec fn spec_parse_digits(digits: Seq<char>) -> Option<u8> {
    if digits.len() > 0 && (forall|i: int| 0 <= i < digits.len() ==> is_digit(#[trigger] digits[i]))
        && decimal_value(digits) <= 255 {
        Some(decimal_value(digits) as u8)
    } else {
        None
    }
}

/// A byte in decimal: an optional `+`, then one or more digits, at most 255.
pub open spec fn spec_parse_u8(s: Seq<char>) -> Option<u8> {
    if s.len() > 0 && s[0] == '+' {
        spec_parse_digits(s.drop_first())
    } else {
        spec_parse_digits(s)
    }
}

/// The index of the first `.`, or the length when there is none.
pub open spec fn first_dot(s: Seq<char>) -> int
    decreases s.len(),
{
    if s.len() == 0 || s[0] == '.' {
        0
    } else {
        1 + first_dot(s.drop_first())
    }
}

/// The code byte of a dotted form `C.DD`: two decimal components around the
/// one dot, the class at most 7 and the detail at most 31.
pub open spec fn spec_parse_code(s: Seq<char>) -> Option<u8> {
    let p = first_dot(s);
    if p >= s.len() {
        None
    } else {
        match (spec_parse_u8(s.take(p)), spec_parse_u8(s.skip(p + 1))) {
            (Some(c), Some(d)) => if c <= 7 && d <= 31 {
                Some((c * 32 + d) as u8)
            } else {
                None
            },
            _ => None,
        }
    }
}

proof fn lemma_first_dot_at(s: Seq<char>, k: int)
    requires
        0 <= k <= s.len(),
        forall|j: int| 0 <= j < k ==> s[j] != '.',
        k < s.len() ==> s[k] == '.',
    ensures
        first_dot(s) == k,
    decreases s.len(),
{
    if k > 0 {
        let rest = s.drop_first();
        assert forall|j: int| 0 <= j < k - 1 implies rest[j] != '.' by {
            assert(rest[j] == s[j + 1]);
        }
        if k - 1 < rest.len() {
            assert(rest[k - 1] == s[k]);
        }
        lemma_first_dot_at(rest, k - 1);
    }
}

/// A prefix of a digit string stands for no more than the whole.
proof fn lemma_decimal_prefix(s: Seq<char>, k: int)
    requires
        0 <= k <= s.len(),
    ensures
        decimal_value(s.take(k)) <= decimal_value(s),
    decreases s.len(),
{
    if k < s.len() {
        lemma_decimal_prefix(s.drop_last(), k);
        assert(s.drop_last().take(k) =~= s.take(k));
    } else {
        assert(s.take(k) =~= s);
    }
}

/// Reads a byte in decimal from `s[from..to]`.
fn parse_u8_range(s: &str, from: usize, to: usize) -> (r: Option<u8>)
    requires
        from <= to <= s@.len(),
    ensures
        r == spec_parse_u8(s@.subrange(from as int, to as int)),
{
    let ghost part = s@.subrange(from as int, to as int);
    let mut i = from;
    if i < to && s.get_char(i) == '+' {
        i = i + 1;
    }
    let ghost digits = s@.subrange(i as int, to as int);
    assert(digits =~= if part.len() > 0 && part[0] == '+' {
        part.drop_first()
    } else {
        part
    });
    if i == to {
        return None;
    }
    let start = i;
    let mut value: u32 = 0;
    while i < to
        invariant
            start <= i <= to <= s@.len(),
            start < to,
            part == s@.subrange(from as int, to as int),
            digits == s@.subrange(start as int, to as int),
            digits == (if part.len() > 0 && part[0] == '+' {
                part.drop_first()
            } else {
                part
            }),
            forall|j: int| 0 <= j < i - start ==> is_digit(#[trigger] digits[j]),
            value as nat == decimal_value(digits.take(i - start)),
            value <= 255,
        decreases to - i,
    {
        let c = s.get_char(i);
        if c < '0' || c > '9' {
            assert(!is_digit(digits[i - start]));
            assert(!(forall|j: int| 0 <= j < digits.len() ==> is_digit(#[trigger] digits[j])));
            return None;
        }
        value = value * 10 + (c as u32 - '0' as u32);
        assert(digits.take(i + 1 - start).drop_last() =~= digits.take(i - start));
        i = i + 1;
        if value > 255 {
            proof {
                if forall|j: int| 0 <= j < digits.len() ==> is_digit(#[trigger] digits[j]) {
                    lemma_decimal_prefix(digits, i - start);
                    assert(decimal_value(digits) > 255);
                }
            }
            return None;
        }
    }
    assert(digits.take(i - start) =~= digits);
    Some(value as u8)
}

/// Reads the dotted form `C.DD` of a code byte.
pub fn str_to_code(code: &str) -> (r: Option<u8>)
    ensures
        r == spec_parse_code(code@),
{
    let len = code.unicode_len();
    let mut p: usize = 0;
    while p < len && code.get_char(p) != '.'
        invariant
            p <= len == code@.len(),
            forall|j: int| 0 <= j < p ==> code@[j] != '.',
        decreases len - p,
    {
        p = p + 1;
    }
    proof {
        lemma_first_dot_at(code@, p as int);
    }
    if p >= len {
        return None;
    }
    assert(code@.subrange(0, p as int) =~= code@.take(p as int));
    assert(code@.subrange(p + 1, len as int) =~= code@.skip(p + 1));
    let class_code = parse_u8_range(code, 0, p);
    let detail_code = parse_u8_range(code, p + 1, len);
    match (class_code, detail_code) {
        (Some(c), Some(d)) => if c <= 7 && d <= 31 {
            Some(c * 32 + d)
        } else {
            None
        },
        _ => None,
    }
}

/// Errors of decoding.
#[derive(Debug, PartialEq, Eq, Structural, Clone, Copy)]
pub enum ParseError {
    /// Fewer than four bytes.
    InvalidHeader,
    /// A token length field above 8, or fewer token bytes than it says.
    InvalidTokenLength,
    /// A delta nibble of 15 outside the payload marker, or an option number
    /// beyond `usize`.
    InvalidOptionDelta,
    /// A length nibble of 15, an extension byte or a value past the end.
    InvalidOptionLength,
}

/// Errors of encoding.
#[derive(Debug, PartialEq, Eq, Structural, Clone, Copy)]
pub enum PackageError {
    /// An option header that the wire cannot carry: the gap between two
    /// written option numbers exceeds the largest extended delta.
    InvalidHeader,
    /// More than 1280 bytes.
    InvalidPacketLength,
}

/// The header as it stands on the wire: first byte, code byte, message id.
#[derive(Debug, Clone, Copy)]
pub struct PacketHeaderRaw {
    ver_type_tkl: u8,
    code: u8,
    message_id: u16,
}

impl View for PacketHeaderRaw {
    type V = (u8, u8, u16);

    closed spec fn view(&self) -> (u8, u8, u16) {
        (self.ver_type_tkl, self.code, self.message_id)
    }
}

impl Default for PacketHeaderRaw {
    fn default() -> (r: PacketHeaderRaw)
        ensures
            r@ == (0u8, 0u8, 0u16),
    {
        PacketHeaderRaw { ver_type_tkl: 0, code: 0, message_id: 0 }
    }
}

/// The header as mathematics: the first byte (version, type, token length),
/// the class of the code byte and the message id.
pub struct HeaderModel {
    pub ver_type_tkl: u8,
    pub code: PacketClass,
    pub message_id: u16,
}

impl HeaderModel {
    pub open spec fn version(self) -> u8 {
        self.ver_type_tkl / 64
    }

    pub open spec fn type_bits(self) -> u8 {
        (self.ver_type_tkl / 16) % 4
    }

    pub open spec fn token_length(self) -> u8 {
        self.ver_type_tkl % 16
    }
}

/// The two bits that a message type is written as.
pub open spec fn type_number(t: PacketType) -> u8 {
    match t {
        PacketType::Confirmable => 0,
        PacketType::NonConfirmable => 1,
        PacketType::Acknowledgement => 2,
        PacketType::Reset => 3,
        PacketType::Invalid => 4,
    }
}

/// The message type that two bits stand for.
pub open spec fn type_of_number(n: u8) -> PacketType {
    match n {
        0 => PacketType::Confirmable,
        1 => PacketType::NonConfirmable,
        2 => PacketType::Acknowledgement,
        3 => PacketType::Reset,
        _ => PacketType::Invalid,
    }
}

#[derive(Debug, Clone, Copy)]
pub struct PacketHeader {
    ver_type_tkl: u8,
    pub code: PacketClass,
    message_id: u16,
}

impl View for PacketHeader {
    type V = HeaderModel;

    closed spec fn view(&self) -> HeaderModel {
        HeaderModel { ver_type_tkl: self.ver_type_tkl, code: self.code, message_id: self.message_id }
    }
}

impl PacketHeader {
    pub fn new() -> (r: PacketHeader)
        ensures
            r@ == (HeaderModel { ver_type_tkl: 0, code: PacketClass::Empty, message_id: 0 }),
    {
        PacketHeader::from_raw(&PacketHeaderRaw::default())
    }

    pub fn from_raw(raw: &PacketHeaderRaw) -> (r: PacketHeader)
        ensures
            r@ == (HeaderModel {
                ver_type_tkl: raw@.0,
                code: spec_code_to_class(raw@.1),
                message_id: raw@.2,
            }),
    {
        PacketHeader {
            ver_type_tkl: raw.ver_type_tkl,
            code: code_to_class(&raw.code),
            message_id: raw.message_id,
        }
    }

    pub fn to_raw(&self) -> (r: PacketHeaderRaw)
        ensures
            r@ == (self@.ver_type_tkl, spec_class_to_code(self@.code), self@.message_id),
    {
        PacketHeaderRaw {
            ver_type_tkl: self.ver_type_tkl,
            code: class_to_code(&self.code),
            message_id: self.message_id,
        }
    }

    /// Sets the two version bits to the low two bits of `v`.
    pub fn set_version(&mut self, v: u8)
        ensures
            final(self)@.ver_type_tkl == (v % 4) * 64 + old(self)@.ver_type_tkl % 64,
            final(self)@.message_id == old(self)@.message_id,
            final(self)@.code == old(self)@.code,
    {
        self.ver_type_tkl = (v % 4) * 64 + self.ver_type_tkl % 64;
    }

    pub fn get_version(&self) -> (r: u8)
        ensures
            r == self@.version(),
    {
        self.ver_type_tkl / 64
    }

    pub fn set_type(&mut self, t: PacketType)
        requires
            t != PacketType::Invalid,
        ensures
            final(self)@.ver_type_tkl == old(self)@.version() * 64 + type_number(t) * 16
                + old(self)@.token_length(),
            final(self)@.message_id == old(self)@.message_id,
            final(self)@.code == old(self)@.code,
    {
        let tn: u8 = match t {
            PacketType::Confirmable => 0,
            PacketType::NonConfirmable => 1,
            PacketType::Acknowledgement => 2,
            _ => 3,
        };
        self.ver_type_tkl = self.ver_type_tkl / 64 * 64 + tn * 16 + self.ver_type_tkl % 16;
    }

    pub fn get_type(&self) -> (r: PacketType)
        ensures
            r == type_of_number(self@.type_bits()),
    {
        match (self.ver_type_tkl / 16) % 4 {
            0 => PacketType::Confirmable,
            1 => PacketType::NonConfirmable,
            2 => PacketType::Acknowledgement,
            _ => PacketType::Reset,
        }
    }

    pub(crate) fn set_token_length(&mut self, tkl: u8)
        requires
            tkl < 16,
        ensures
            final(self)@.ver_type_tkl == old(self)@.ver_type_tkl / 16 * 16 + tkl,
            final(self)@.message_id == old(self)@.message_id,
            final(self)@.code == old(self)@.code,
    {
        self.ver_type_tkl = self.ver_type_tkl / 16 * 16 + tkl;
    }

    pub fn get_token_length(&self) -> (r: u8)
        ensures
            r == self@.token_length(),
    {
        self.ver_type_tkl % 16
    }

    /// Sets the code from its dotted form `C.DD`.
    pub fn set_code(&mut self, code: &str)
        requires
            spec_parse_code(code@) is Some,
        ensures
            final(self)@ == (HeaderModel {
                code: spec_code_to_class(spec_parse_code(code@)->Some_0),
                ..old(self)@
            }),
    {
        match str_to_code(code) {
            Some(c) => {
                self.code = code_to_class(&c);
            },
            None => {},
        }
    }

    /// The dotted form of the code.
    pub fn get_code(&self) -> (r: String)
        ensures
            r@ == spec_code_str(spec_class_to_code(self@.code)),
    {
        class_to_str(&self.code)
    }

    pub fn get_class(&self) -> (r: PacketClass)
        ensures
            r == self@.code,
    {
        self.code
    }

    pub fn set_message_id(&mut self, message_id: u16)
        ensures
            final(self)@.message_id == message_id,
            final(self)@.ver_type_tkl == old(self)@.ver_type_tkl,
            final(self)@.code == old(self)@.code,
    {
        self.message_id = message_id;
    }

    pub fn get_message_id(&self) -> (r: u16)
        ensures
            r == self@.message_id,
    {
        self.message_id
    }
}

/// Names for the registered option numbers.
#[derive(Debug, PartialEq, Eq, Structural, Clone, Copy)]
pub enum OptionType {
    IfMatch,
    UriHost,
    ETag,
    IfNoneMatch,
    Observe,
    UriPort,
    LocationPath,
    UriPath,
    ContentFormat,
    MaxAge,
    UriQuery,
    Accept,
    LocationQuery,
    Block2,
    Block1,
    ProxyUri,
    ProxyScheme,
    Size1,
}

pub open spec fn spec_option_number(tp: OptionType) -> usize {
    match tp {
        OptionType::IfMatch => 1,
        OptionType::UriHost => 3,
        OptionType::ETag => 4,
        OptionType::IfNoneMatch => 5,
        OptionType::Observe => 6,
        OptionType::UriPort => 7,
        OptionType::LocationPath => 8,
        OptionType::UriPath => 11,
        OptionType::ContentFormat => 12,
        OptionType::MaxAge => 14,
        OptionType::UriQuery => 15,
        OptionType::Accept => 17,
        OptionType::LocationQuery => 20,
        OptionType::Block2 => 23,
        OptionType::Block1 => 27,
        OptionType::ProxyUri => 35,
        OptionType::ProxyScheme => 39,
        OptionType::Size1 => 60,
    }
}

/// A CoAP message.
#[derive(Debug, Clone)]
pub struct Packet {
    pub header: PacketHeader,
    token: Vec<u8>,
    options: Vec<(usize, Vec<Vec<u8>>)>,
    pub payload: Vec<u8>,
}

impl View for Packet {
    type V = PacketModel;

    closed spec fn view(&self) -> PacketModel {
        PacketModel {
            ver_type_tkl: self.header@.ver_type_tkl,
            code: self.header@.code,
            message_id: self.header@.message_id,
            token: self.token@,
            options: entries_view(self.options@),
            payload: self.payload@,
        }
    }
}

impl Packet {
    /// What every packet keeps: at most eight token bytes, and option
    /// numbers in ascending order.
    pub open spec fn wf(&self) -> bool {
        &&& self@.token.len() <= 8
        &&& self@.options_ordered()
    }

    pub fn new() -> (r: Packet)
        ensures
            r@ == empty_model(),
            r.wf(),
    {
        let r = Packet {
            header: PacketHeader::new(),
            token: Vec::new(),
            options: Vec::new(),
            payload: Vec::new(),
        };
        assert(entries_view(r.options@) =~= seq![]);
        r
    }

    /// Decodes a datagram.
    pub fn from_bytes(buf: &[u8]) -> (r: Result<Packet, ParseError>)
        ensures
            match (r, spec_decode(buf@)) {
                (Ok(p), Ok(m)) => p@ == m && p.wf(),
                (Err(e1), Err(e2)) => e1 == e2,
                _ => false,
            },
    {
        if buf.len() < 4 {
            return Err(ParseError::InvalidHeader);
        }
        let raw = PacketHeaderRaw {
            ver_type_tkl: buf[0],
            code: buf[1],
            message_id: buf[2] as u16 * 256 + buf[3] as u16,
        };
        let header = PacketHeader::from_raw(&raw);
        let token_length = header.get_token_length();
        if token_length > 8 {
            return Err(ParseError::InvalidTokenLength);
        }
        let options_start: usize = 4 + token_length as usize;
        if options_start > buf.len() {
            return Err(ParseError::InvalidTokenLength);
        }
        let token = copy_range(buf, 4, options_start);
        match decode_options(buf, options_start) {
            Err(e) => Err(e),
            Ok((options, payload_start)) => {
                let payload = copy_range(buf, payload_start, buf.len());
                Ok(Packet { header, token, options, payload })
            },
        }
    }

    /// Encodes the message.
    pub fn to_bytes(&self) -> (r: Result<Vec<u8>, PackageError>)
        ensures
            match (r, spec_encode(self@)) {
                (Ok(b), Ok(s)) => b@ == s,
                (Err(e1), Err(e2)) => e1 == e2,
                _ => false,
            },
    {
        let mut options_bytes: Vec<u8> = Vec::new();
        match encode_options(&self.options, &mut options_bytes) {
            Err(e) => {
                return Err(e);
            },
            Ok(()) => {},
        }
        let with_payload = self.header.code != PacketClass::Empty && self.payload.len() != 0;
        proof {
            let m = self@;
            assert(crate::codec::frame_bytes(m).len() == 4 + self.token@.len()
                + options_bytes@.len());
            assert(crate::codec::payload_bytes(m).len() == if with_payload {
                1 + self.payload@.len()
            } else {
                0
            });
        }
        if self.token.len() > MAX_MESSAGE_LEN || options_bytes.len() > MAX_MESSAGE_LEN
            || (with_payload && self.payload.len() > MAX_MESSAGE_LEN) {
            return Err(PackageError::InvalidPacketLength);
        }
        let mut length = 4 + self.token.len() + options_bytes.len();
        if with_payload {
            length = length + 1 + self.payload.len();
        }
        if length > MAX_MESSAGE_LEN {
            return Err(PackageError::InvalidPacketLength);
        }
        let raw = self.header.to_raw();
        let mut buf: Vec<u8> = Vec::new();
        buf.push(raw.ver_type_tkl);
        buf.push(raw.code);
        buf.push((raw.message_id / 256) as u8);
        buf.push((raw.message_id % 256) as u8);
        append_bytes(&mut buf, self.token.as_slice());
        append_bytes(&mut buf, options_bytes.as_slice());
        if with_payload {
            buf.push(PAYLOAD_MARKER);
            append_bytes(&mut buf, self.payload.as_slice());
        }
        proof {
            let m = self@;
            assert(buf@ =~= crate::codec::frame_bytes(m) + crate::codec::payload_bytes(m));
        }
        Ok(buf)
    }

    pub fn set_token(&mut self, token: Vec<u8>)
        requires
            token@.len() <= 8,
            old(self).wf(),
        ensures
            final(self)@ == (PacketModel {
                ver_type_tkl: (old(self)@.ver_type_tkl / 16 * 16 + token@.len()) as u8,
                token: token@,
                ..old(self)@
            }),
            final(self).wf(),
    {
        self.header.set_token_length(token.len() as u8);
        self.token = token;
    }

    pub fn get_token(&self) -> (r: &Vec<u8>)
        ensures
            r@ == self@.token,
    {
        &self.token
    }

    /// Replaces the values under the option's number.
    pub fn set_option(&mut self, tp: OptionType, value: Vec<Vec<u8>>)
        requires
            old(self).wf(),
        ensures
            final(self)@ == (PacketModel {
                options: with_values(old(self)@.options, spec_option_number(tp), values_view(value@)),
                ..old(self)@
            }),
            final(self).wf(),
    {
        let num = Self::get_option_number(tp);
        let k = find_position(&self.options, num);
        let ghost before = entries_view(self.options@);
        if k < self.options.len() && self.options[k].0 == num {
            self.options[k] = (num, value);
        } else {
            self.options.insert(k, (num, value));
        }
        proof {
            assert(entries_view(self.options@) =~~= with_values(before, num, values_view(value@)));
            lemma_with_values_ordered(before, num, values_view(value@));
        }
    }

    pub fn set_payload(&mut self, payload: Vec<u8>)
        ensures
            final(self)@ == (PacketModel { payload: payload@, ..old(self)@ }),
            old(self).wf() ==> final(self).wf(),
    {
        self.payload = payload;
    }

    /// Appends a value under the option's number, after the values already
    /// there.
    pub fn add_option(&mut self, tp: OptionType, value: Vec<u8>)
        requires
            old(self).wf(),
        ensures
            final(self)@ == (PacketModel {
                options: with_value_added(old(self)@.options, spec_option_number(tp), value@),
                ..old(self)@
            }),
            final(self).wf(),
    {
        let num = Self::get_option_number(tp);
        let k = find_position(&self.options, num);
        let ghost before = entries_view(self.options@);
        let ghost v = value@;
        if k < self.options.len() && self.options[k].0 == num {
            let (n, mut values) = self.options.remove(k);
            let ghost old_values = values@;
            values.push(value);
            assert(values_view(values@) =~= values_view(old_values).push(v));
            self.options.insert(k, (n, values));
            proof {
                assert(entries_view(self.options@) =~~= with_values(
                    before,
                    num,
                    before[k as int].1.push(v),
                ));
                lemma_with_values_ordered(before, num, before[k as int].1.push(v));
            }
        } else {
            let mut values: Vec<Vec<u8>> = Vec::new();
            values.push(value);
            assert(values_view(values@) =~= seq![v]);
            self.options.insert(k, (num, values));
            proof {
                assert(entries_view(self.options@) =~~= with_values(before, num, seq![v]));
                lemma_with_values_ordered(before, num, seq![v]);
            }
        }
    }

    /// A copy of the values under the option's number, if it is present.
    pub fn get_option(&self, tp: OptionType) -> (r: Option<Vec<Vec<u8>>>)
        ensures
            match r {
                Some(vs) => option_values(self@.options, spec_option_number(tp)) == Some(
                    values_view(vs@),
                ),
                None => option_values(self@.options, spec_option_number(tp)) is None,
            },
    {
        let num = Self::get_option_number(tp);
        let k = find_position(&self.options, num);
        if k < self.options.len() && self.options[k].0 == num {
            let values = &self.options[k].1;
            let mut copy: Vec<Vec<u8>> = Vec::new();
            let mut i: usize = 0;
            while i < values.len()
                invariant
                    i <= values@.len(),
                    values_view(copy@) == values_view(values@).take(i as int),
                decreases values@.len() - i,
            {
                let value = vstd::slice::slice_to_vec(values[i].as_slice());
                assert(value@ == values_view(values@)[i as int]);
                let ghost before = copy@;
                copy.push(value);
                assert(values_view(copy@) =~= values_view(before).push(value@));
                i = i + 1;
                assert(values_view(copy@) =~= values_view(values@).take(i as int));
            }
            assert(values_view(values@).take(i as int) =~= values_view(values@));
            Some(copy)
        } else {
            None
        }
    }

    /// The number of distinct option numbers present.
    pub fn option_count(&self) -> (r: usize)
        ensures
            r == self@.options.len(),
    {
        self.options.len()
    }

    /// The class of the code byte.
    pub fn get_class(&self) -> (r: PacketClass)
        ensures
            r == self@.code,
    {
        self.header.code
    }

    pub fn set_class(&mut self, class: PacketClass)
        ensures
            final(self)@ == (PacketModel { code: class, ..old(self)@ }),
            old(self).wf() ==> final(self).wf(),
    {
        self.header.code = class;
    }

    /// Sets the two version bits to the low two bits of `v`.
    pub fn set_version(&mut self, v: u8)
        ensures
            final(self)@ == (PacketModel {
                ver_type_tkl: ((v % 4) * 64 + old(self)@.ver_type_tkl % 64) as u8,
                ..old(self)@
            }),
            old(self).wf() ==> final(self).wf(),
    {
        self.header.set_version(v);
    }

    pub fn get_version(&self) -> (r: u8)
        ensures
            r == self@.version(),
    {
        self.header.get_version()
    }

    pub fn set_type(&mut self, t: PacketType)
        requires
            t != PacketType::Invalid,
        ensures
            final(self)@ == (PacketModel {
                ver_type_tkl: (old(self)@.version() * 64 + type_number(t) * 16
                    + old(self)@.token_length()) as u8,
                ..old(self)@
            }),
            old(self).wf() ==> final(self).wf(),
    {
        self.header.set_type(t);
    }

    pub fn get_type(&self) -> (r: PacketType)
        ensures
            r == type_of_number(self@.type_bits()),
    {
        self.header.get_type()
    }

    pub fn get_token_length(&self) -> (r: u8)
        ensures
            r == self@.token_length(),
    {
        self.header.get_token_length()
    }

    pub fn set_message_id(&mut self, message_id: u16)
        ensures
            final(self)@ == (PacketModel { message_id, ..old(self)@ }),
            old(self).wf() ==> final(self).wf(),
    {
        self.header.set_message_id(message_id);
    }

    pub fn get_message_id(&self) -> (r: u16)
        ensures
            r == self@.message_id,
    {
        self.header.get_message_id()
    }

    pub fn payload(&self) -> (r: &Vec<u8>)
        ensures
            r@ == self@.payload,
    {
        &self.payload
    }

    fn get_option_number(tp: OptionType) -> (r: usize)
        ensures
            r == spec_option_number(tp),
    {
        match tp {
            OptionType::IfMatch => 1,
            OptionType::UriHost => 3,
            OptionType::ETag => 4,
            OptionType::IfNoneMatch => 5,
            OptionType::Observe => 6,
            OptionType::UriPort => 7,
            OptionType::LocationPath => 8,
            OptionType::UriPath => 11,
            OptionType::ContentFormat => 12,
            OptionType::MaxAge => 14,
            OptionType::UriQuery => 15,
            OptionType::Accept => 17,
            OptionType::LocationQuery => 20,
            OptionType::Block2 => 23,
            OptionType::Block1 => 27,
            OptionType::ProxyUri => 35,
            OptionType::ProxyScheme => 39,
            OptionType::Size1 => 60,
        }
    }
}

/// The index of the first entry whose number is at least `n`.
fn find_position(opts: &Vec<(usize, Vec<Vec<u8>>)>, n: usize) -> (k: usize)
    ensures
        k == lower_bound(entries_view(opts@), n),
        k <= opts@.len(),
{
    let mut k: usize = 0;
    while k < opts.len() && opts[k].0 < n
        invariant
            k <= opts@.len(),
            forall|j: int| 0 <= j < k ==> opts@[j].0 < n,
        decreases opts@.len() - k,
    {
        k = k + 1;
    }
    proof {
        lemma_lower_bound_at(entries_view(opts@), n, k as int);
    }
    k
}

/// The response to `req` whose type is written as `type_num`.
pub open spec fn response_model(req: PacketModel, type_num: u8) -> PacketModel {
    PacketModel {
        ver_type_tkl: (64 + type_num * 16 + req.token.len()) as u8,
        code: PacketClass::Response(Responses::Content),
        message_id: req.message_id,
        token: req.token,
        options: seq![],
        payload: req.payload,
    }
}

/// `r` is the response that `auto_response` gives to `req`.
pub open spec fn is_default_response(req: PacketModel, r: Option<Packet>) -> bool {
    match type_of_number(req.type_bits()) {
        PacketType::Confirmable => r matches Some(p) && p@ == response_model(req, 2) && p.wf(),
        PacketType::NonConfirmable => r matches Some(p) && p@ == response_model(req, 1) && p.wf(),
        _ => r is None,
    }
}

/// The response that answers a request by default: version 1,
/// Acknowledgement for a Confirmable request and NonConfirmable for a
/// NonConfirmable one, code 2.05 Content, the request's message id, token
/// and payload. Other requests get none.
pub fn auto_response(request_packet: &Packet) -> (r: Option<Packet>)
    requires
        request_packet.wf(),
    ensures
        is_default_response(request_packet@, r),
{
    let mut packet = Packet::new();
    packet.header.set_version(1);
    let response_type = match request_packet.header.get_type() {
        PacketType::Confirmable => PacketType::Acknowledgement,
        PacketType::NonConfirmable => PacketType::NonConfirmable,
        _ => {
            return None;
        },
    };
    packet.header.set_type(response_type);
    packet.header.code = PacketClass::Response(Responses::Content);
    packet.header.set_message_id(request_packet.header.get_message_id());
    packet.set_token(vstd::slice::slice_to_vec(request_packet.get_token().as_slice()));
    packet.payload = vstd::slice::slice_to_vec(request_packet.payload.as_slice());
    Some(packet)
}

} // verus!
