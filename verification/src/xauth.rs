//! Authority records: the credentials a client presents when it connects.
//!
//! A record is a big-endian 16-bit family code followed by four counted byte
//! strings (a big-endian 16-bit length, then that many bytes): address,
//! display number, protocol name and authentication data. A file holds any
//! number of records, one after the other.

use crate::error::CredentialError;
use crate::wire::{be_bytes16, be_value16, get_u16_be};
use vstd::prelude::*;
use vstd::slice::{slice_subrange, slice_to_vec};

verus! {

/// Family code of [`Family::Local`].
pub const FAMILY_LOCAL: u16 = 256;

/// Family code of [`Family::Wild`].
pub const FAMILY_WILD: u16 = 65535;

/// Family code of [`Family::Netname`].
pub const FAMILY_NETNAME: u16 = 254;

/// Family code of [`Family::Krb5Principal`].
pub const FAMILY_KRB5PRINCIPAL: u16 = 253;

/// Family code of [`Family::LocalHost`].
pub const FAMILY_LOCALHOST: u16 = 252;

/// The environment variable that names the authority file outright.
pub const OVERRIDE_VARIABLE: &'static str = "XAUTHORITY";

/// The environment variable that names the home directory.
pub const HOME_VARIABLE: &'static str = "HOME";

/// The name of the authority file inside the home directory.
pub const DEFAULT_FILE_NAME: &'static str = ".Xauthority";

/// The authentication family.
#[derive(Debug, Clone, Copy, Eq, PartialEq, Structural)]
pub enum Family {
    /// Not part of X standard.
    Local,
    /// Wild
    Wild,
    /// Not part of X standard.
    Netname,
    /// Kerberos 5 principal name.
    Krb5Principal,
    /// For local, non net, authentication.
    LocalHost,
}

/// The family that a code stands for. Codes outside the five known ones stand
/// for none; there is no fallback.
pub open spec fn family_of(raw: u16) -> Option<Family> {
    if raw == FAMILY_LOCAL {
        Some(Family::Local)
    } else if raw == FAMILY_WILD {
        Some(Family::Wild)
    } else if raw == FAMILY_NETNAME {
        Some(Family::Netname)
    } else if raw == FAMILY_KRB5PRINCIPAL {
        Some(Family::Krb5Principal)
    } else if raw == FAMILY_LOCALHOST {
        Some(Family::LocalHost)
    } else {
        None
    }
}

impl Family {
    /// The code of the family.
    pub open spec fn code(self) -> u16 {
        match self {
            Family::Local => FAMILY_LOCAL,
            Family::Wild => FAMILY_WILD,
            Family::Netname => FAMILY_NETNAME,
            Family::Krb5Principal => FAMILY_KRB5PRINCIPAL,
            Family::LocalHost => FAMILY_LOCALHOST,
        }
    }

    /// The family that `family` is the code of, if it is one.
    pub fn from_raw(family: u16) -> (r: Option<Family>)
        ensures
            r == family_of(family),
    {
        if family == FAMILY_LOCAL {
            Some(Family::Local)
        } else if family == FAMILY_WILD {
            Some(Family::Wild)
        } else if family == FAMILY_NETNAME {
            Some(Family::Netname)
        } else if family == FAMILY_KRB5PRINCIPAL {
            Some(Family::Krb5Principal)
        } else if family == FAMILY_LOCALHOST {
            Some(Family::LocalHost)
        } else {
            None
        }
    }
}

/// This represents the authentication information.
#[derive(Debug, Clone, PartialEq, Eq)]
pub struct Xauth {
    /// The authentication family
    pub family: Family,
    /// The address of the display's host.
    pub address: Vec<u8>,
    /// The display number.
    pub number: Vec<u8>,
    /// The authentication protocol name.
    pub name: Vec<u8>,
    /// The authentication data.
    pub data: Vec<u8>,
}

/// A record as a mathematical value.
pub struct XauthView {
    pub family: Family,
    pub address: Seq<u8>,
    pub number: Seq<u8>,
    pub name: Seq<u8>,
    pub data: Seq<u8>,
}

impl View for Xauth {
    type V = XauthView;

    open spec fn view(&self) -> XauthView {
        XauthView {
            family: self.family,
            address: self.address@,
            number: self.number@,
            name: self.name@,
            data: self.data@,
        }
    }
}

/// Where the authority file is to be found.
#[derive(Debug, Clone, PartialEq, Eq)]
pub enum CredentialPath {
    /// The file named by the override, taken as it is.
    Override(String),
    /// The file called [`DEFAULT_FILE_NAME`] inside this home directory.
    InHome(String),
}

/// The counted string that starts at `at`: its bytes and the position after
/// it. There is none if the data ends inside the length or inside the bytes.
pub open spec fn counted_at(bytes: Seq<u8>, at: int) -> Option<(Seq<u8>, int)> {
    if at + 2 <= bytes.len() {
        let end = at + 2 + be_value16(bytes[at], bytes[at + 1]);
        if end <= bytes.len() {
            Some((bytes.subrange(at + 2, end), end))
        } else {
            None
        }
    } else {
        None
    }
}

/// The record that starts at `at`, with the position after it. Data that ends
/// anywhere inside the record is truncated, whatever its family code; a
/// complete record with an unknown family code is invalid.
pub open spec fn record_at(bytes: Seq<u8>, at: int) -> Result<(XauthView, int), CredentialError> {
    if at + 2 > bytes.len() {
        Err(CredentialError::TruncatedData)
    } else {
        match counted_at(bytes, at + 2) {
            None => Err(CredentialError::TruncatedData),
            Some((address, after_address)) => match counted_at(bytes, after_address) {
                None => Err(CredentialError::TruncatedData),
                Some((number, after_number)) => match counted_at(bytes, after_number) {
                    None => Err(CredentialError::TruncatedData),
                    Some((name, after_name)) => match counted_at(bytes, after_name) {
                        None => Err(CredentialError::TruncatedData),
                        Some((data, end)) => match family_of(
                            be_value16(bytes[at], bytes[at + 1]),
                        ) {
                            None => Err(CredentialError::InvalidFamily),
                            Some(family) => Ok(
                                (XauthView { family, address, number, name, data }, end),
                            ),
                        },
                    },
                },
            },
        }
    }
}

/// The file image of a counted string.
pub open spec fn counted_image(field: Seq<u8>) -> Seq<u8> {
    be_bytes16(field.len() as u16) + field
}

/// The file image of a record.
pub open spec fn record_image(record: XauthView) -> Seq<u8> {
    be_bytes16(record.family.code()) + counted_image(record.address) + counted_image(
        record.number,
    ) + counted_image(record.name) + counted_image(record.data)
}

/// Whether every field of the record is short enough for a 16-bit length.
pub open spec fn encodable(record: XauthView) -> bool {
    &&& record.address.len() <= u16::MAX
    &&& record.number.len() <= u16::MAX
    &&& record.name.len() <= u16::MAX
    &&& record.data.len() <= u16::MAX
}

/// Every family is found again from its code.
pub proof fn lemma_family_code_round_trip(family: Family)
    ensures
        family_of(family.code()) == Some(family),
{
}

/// A counted string is read back from its image, whatever stands before and
/// after the image.
pub proof fn lemma_counted_at_image(
    bytes: Seq<u8>,
    before: Seq<u8>,
    field: Seq<u8>,
    after: Seq<u8>,
)
    requires
        field.len() <= u16::MAX,
        bytes == before + (counted_image(field) + after),
    ensures
        counted_at(bytes, before.len() as int) == Some(
            (field, (before.len() + 2 + field.len()) as int),
        ),
{
    let at = before.len() as int;
    let n = field.len() as u16;
    assert(bytes[at] == (n / 0x100) as u8);
    assert(bytes[at + 1] == (n % 0x100) as u8);
    assert(be_value16(bytes[at], bytes[at + 1]) == n);
    assert(bytes.subrange(at + 2, at + 2 + n) =~= field);
}

/// Where the address of a record at `at` ends.
pub open spec fn end_of_address(record: XauthView, at: int) -> int {
    at + 4 + record.address.len()
}

/// Where the display number of a record at `at` ends.
pub open spec fn end_of_number(record: XauthView, at: int) -> int {
    end_of_address(record, at) + 2 + record.number.len()
}

/// Where the protocol name of a record at `at` ends.
pub open spec fn end_of_name(record: XauthView, at: int) -> int {
    end_of_number(record, at) + 2 + record.name.len()
}

/// Where a record at `at` ends.
pub open spec fn end_of_record(record: XauthView, at: int) -> int {
    end_of_name(record, at) + 2 + record.data.len()
}

/// A family code followed by four counted strings is a record.
proof fn lemma_record_from_fields(bytes: Seq<u8>, at: int, record: XauthView)
    requires
        at + 2 <= bytes.len(),
        be_value16(bytes[at], bytes[at + 1]) == record.family.code(),
        counted_at(bytes, at + 2) == Some((record.address, end_of_address(record, at))),
        counted_at(bytes, end_of_address(record, at)) == Some(
            (record.number, end_of_number(record, at)),
        ),
        counted_at(bytes, end_of_number(record, at)) == Some(
            (record.name, end_of_name(record, at)),
        ),
        counted_at(bytes, end_of_name(record, at)) == Some(
            (record.data, end_of_record(record, at)),
        ),
    ensures
        record_at(bytes, at) == Ok::<(XauthView, int), CredentialError>(
            (record, end_of_record(record, at)),
        ),
{
    lemma_family_code_round_trip(record.family);
}

/// Five pieces between two others, grouped around piece 0.
proof fn lemma_regroup_0(
    before: Seq<u8>,
    code: Seq<u8>,
    a: Seq<u8>,
    b: Seq<u8>,
    c: Seq<u8>,
    d: Seq<u8>,
    after: Seq<u8>,
)
    ensures
        before + (code + a + b + c + d) + after == (before + code) + (a + b + c + d + after),
{
    assert(before + (code + a + b + c + d) + after =~= (before + code) + (a + b + c + d + after));
}

/// Five pieces between two others, grouped around piece 1.
proof fn lemma_regroup_1(
    before: Seq<u8>,
    code: Seq<u8>,
    a: Seq<u8>,
    b: Seq<u8>,
    c: Seq<u8>,
    d: Seq<u8>,
    after: Seq<u8>,
)
    ensures
        before + (code + a + b + c + d) + after == (before + code) + (a + (b + c + d + after)),
{
    assert(before + (code + a + b + c + d) + after =~= (before + code) + (a + (b + c + d + after)));
}

/// Five pieces between two others, grouped around piece 2.
proof fn lemma_regroup_2(
    before: Seq<u8>,
    code: Seq<u8>,
    a: Seq<u8>,
    b: Seq<u8>,
    c: Seq<u8>,
    d: Seq<u8>,
    after: Seq<u8>,
)
    ensures
        before + (code + a + b + c + d) + after == (before + code + a) + (b + (c + d + after)),
{
    assert(before + (code + a + b + c + d) + after =~= (before + code + a) + (b + (c + d + after)));
}

/// Five pieces between two others, grouped around piece 3.
proof fn lemma_regroup_3(
    before: Seq<u8>,
    code: Seq<u8>,
    a: Seq<u8>,
    b: Seq<u8>,
    c: Seq<u8>,
    d: Seq<u8>,
    after: Seq<u8>,
)
    ensures
        before + (code + a + b + c + d) + after == (before + code + a + b) + (c + (d + after)),
{
    assert(before + (code + a + b + c + d) + after =~= (before + code + a + b) + (c + (d + after)));
}

/// Five pieces between two others, grouped around piece 4.
proof fn lemma_regroup_4(
    before: Seq<u8>,
    code: Seq<u8>,
    a: Seq<u8>,
    b: Seq<u8>,
    c: Seq<u8>,
    d: Seq<u8>,
    after: Seq<u8>,
)
    ensures
        before + (code + a + b + c + d) + after == (before + code + a + b + c) + (d + after),
{
    assert(before + (code + a + b + c + d) + after =~= (before + code + a + b + c) + (d + after));
}

/// A family code is read back from its two bytes, whatever follows them.
proof fn lemma_code_in_front(bytes: Seq<u8>, before: Seq<u8>, code: u16, rest: Seq<u8>)
    requires
        bytes == (before + be_bytes16(code)) + rest,
    ensures
        before.len() + 2 <= bytes.len(),
        be_value16(bytes[before.len() as int], bytes[before.len() as int + 1]) == code,
{
    let head = before + be_bytes16(code);
    let at = before.len() as int;
    assert(head[at] == (code / 0x100) as u8);
    assert(head[at + 1] == (code % 0x100) as u8);
}

/// The family code of a record is found in its image.
#[verifier::rlimit(40)]
proof fn lemma_code_of_image(bytes: Seq<u8>, before: Seq<u8>, record: XauthView, after: Seq<u8>)
    requires
        encodable(record),
        bytes == before + record_image(record) + after,
    ensures
        before.len() + 2 <= bytes.len(),
        be_value16(bytes[before.len() as int], bytes[before.len() as int + 1])
            == record.family.code(),
{
    let code = be_bytes16(record.family.code());
    let a = counted_image(record.address);
    let b = counted_image(record.number);
    let c = counted_image(record.name);
    let d = counted_image(record.data);
    lemma_regroup_0(before, code, a, b, c, d, after);
    lemma_code_in_front(bytes, before, record.family.code(), a + b + c + d + after);
}

/// The address of a record is found in its image.
#[verifier::rlimit(40)]
proof fn lemma_address_of_image(bytes: Seq<u8>, before: Seq<u8>, record: XauthView, after: Seq<u8>)
    requires
        encodable(record),
        bytes == before + record_image(record) + after,
    ensures
        counted_at(bytes, before.len() as int + 2) == Some(
            (record.address, end_of_address(record, before.len() as int)),
        ),
{
    let code = be_bytes16(record.family.code());
    let a = counted_image(record.address);
    let b = counted_image(record.number);
    let c = counted_image(record.name);
    let d = counted_image(record.data);
    lemma_regroup_1(before, code, a, b, c, d, after);
    lemma_counted_at_image(bytes, before + code, record.address, b + c + d + after);
}

/// The display number of a record is found in its image.
#[verifier::rlimit(40)]
proof fn lemma_number_of_image(bytes: Seq<u8>, before: Seq<u8>, record: XauthView, after: Seq<u8>)
    requires
        encodable(record),
        bytes == before + record_image(record) + after,
    ensures
        counted_at(bytes, end_of_address(record, before.len() as int)) == Some(
            (record.number, end_of_number(record, before.len() as int)),
        ),
{
    let code = be_bytes16(record.family.code());
    let a = counted_image(record.address);
    let b = counted_image(record.number);
    let c = counted_image(record.name);
    let d = counted_image(record.data);
    lemma_regroup_2(before, code, a, b, c, d, after);
    lemma_counted_at_image(bytes, before + code + a, record.number, c + d + after);
}

/// The protocol name of a record is found in its image.
#[verifier::rlimit(40)]
proof fn lemma_name_of_image(bytes: Seq<u8>, before: Seq<u8>, record: XauthView, after: Seq<u8>)
    requires
        encodable(record),
        bytes == before + record_image(record) + after,
    ensures
        counted_at(bytes, end_of_number(record, before.len() as int)) == Some(
            (record.name, end_of_name(record, before.len() as int)),
        ),
{
    let code = be_bytes16(record.family.code());
    let a = counted_image(record.address);
    let b = counted_image(record.number);
    let c = counted_image(record.name);
    let d = counted_image(record.data);
    lemma_regroup_3(before, code, a, b, c, d, after);
    lemma_counted_at_image(bytes, before + code + a + b, record.name, d + after);
}

/// The authentication data of a record is found in its image.
#[verifier::rlimit(40)]
proof fn lemma_data_of_image(bytes: Seq<u8>, before: Seq<u8>, record: XauthView, after: Seq<u8>)
    requires
        encodable(record),
        bytes == before + record_image(record) + after,
    ensures
        counted_at(bytes, end_of_name(record, before.len() as int)) == Some(
            (record.data, end_of_record(record, before.len() as int)),
        ),
        end_of_record(record, before.len() as int) == before.len() + record_image(record).len(),
{
    let code = be_bytes16(record.family.code());
    let a = counted_image(record.address);
    let b = counted_image(record.number);
    let c = counted_image(record.name);
    let d = counted_image(record.data);
    lemma_regroup_4(before, code, a, b, c, d, after);
    lemma_counted_at_image(bytes, before + code + a + b + c, record.data, after);
    assert(record_image(record).len() == code.len() + a.len() + b.len() + c.len() + d.len());
}

/// Parsing inverts the file format: a record whose fields fit their length
/// prefixes is read back exactly from its image, whatever stands before and
/// after the image.
pub proof fn lemma_parse_inverts_image(
    bytes: Seq<u8>,
    before: Seq<u8>,
    record: XauthView,
    after: Seq<u8>,
)
    requires
        encodable(record),
        bytes == before + record_image(record) + after,
    ensures
        record_at(bytes, before.len() as int) == Ok::<(XauthView, int), CredentialError>(
            (record, end_of_record(record, before.len() as int)),
        ),
        end_of_record(record, before.len() as int) == before.len() + record_image(record).len(),
{
    lemma_code_of_image(bytes, before, record, after);
    lemma_address_of_image(bytes, before, record, after);
    lemma_number_of_image(bytes, before, record, after);
    lemma_name_of_image(bytes, before, record, after);
    lemma_data_of_image(bytes, before, record, after);
    lemma_record_from_fields(bytes, before.len() as int, record);
}

/// Cutting the data does not change a counted string that ends before the
/// cut, and leaves none where the string reached beyond it.
pub proof fn lemma_counted_at_cut(bytes: Seq<u8>, at: int, cut: int)
    requires
        0 <= at,
        0 <= cut <= bytes.len(),
        counted_at(bytes, at) is Some,
    ensures
        counted_at(bytes.subrange(0, cut), at) == if counted_at(bytes, at).unwrap().1 <= cut {
            counted_at(bytes, at)
        } else {
            None
        },
{
    let (field, end) = counted_at(bytes, at).unwrap();
    let kept = bytes.subrange(0, cut);
    if end <= cut {
        assert(kept.subrange(at + 2, end) =~= field);
    }
}

/// A record cut short never parses: if the data ends anywhere before the end
/// of a complete record, the result is `TruncatedData`, never a record with
/// missing or made-up bytes.
pub proof fn lemma_truncation_is_detected(bytes: Seq<u8>, at: int, cut: int)
    requires
        0 <= at,
        0 <= cut <= bytes.len(),
        record_at(bytes, at) matches Ok(parsed) && cut < parsed.1,
    ensures
        record_at(bytes.subrange(0, cut), at) == Err::<(XauthView, int), CredentialError>(
            CredentialError::TruncatedData,
        ),
{
    let kept = bytes.subrange(0, cut);
    if at + 2 <= cut {
        lemma_counted_at_cut(bytes, at + 2, cut);
        let after_address = counted_at(bytes, at + 2).unwrap().1;
        if after_address <= cut {
            lemma_counted_at_cut(bytes, after_address, cut);
            let after_number = counted_at(bytes, after_address).unwrap().1;
            if after_number <= cut {
                lemma_counted_at_cut(bytes, after_number, cut);
                let after_name = counted_at(bytes, after_number).unwrap().1;
                if after_name <= cut {
                    lemma_counted_at_cut(bytes, after_name, cut);
                }
            }
        }
    }
}

/// Reads the counted string at `at`.
fn read_counted(bytes: &[u8], at: usize) -> (r: Option<(Vec<u8>, usize)>)
    ensures
        match r {
            Some((field, end)) => counted_at(bytes@, at as int) == Some((field@, end as int)),
            None => counted_at(bytes@, at as int) is None,
        },
{
    let total: usize = bytes.len();
    match get_u16_be(bytes, at) {
        None => None,
        Some(len) => {
            assert(at + 2 <= total);
            let start: usize = at + 2;
            if len as usize > bytes.len() - start {
                None
            } else {
                let end: usize = start + len as usize;
                let field = slice_to_vec(slice_subrange(bytes, start, end));
                Some((field, end))
            }
        },
    }
}

impl Xauth {
    /// Parses the record that starts at `at` and returns it with the position
    /// after it.
    pub fn parse_at(bytes: &[u8], at: usize) -> (r: Result<(Xauth, usize), CredentialError>)
        ensures
            match r {
                Ok((record, end)) => record_at(bytes@, at as int) == Ok::<
                    (XauthView, int),
                    CredentialError,
                >((record@, end as int)),
                Err(e) => record_at(bytes@, at as int) == Err::<(XauthView, int), CredentialError>(
                    e,
                ),
            },
    {
        let total: usize = bytes.len();
        let family_raw: u16 = match get_u16_be(bytes, at) {
            None => {
                return Err(CredentialError::TruncatedData);
            },
            Some(raw) => raw,
        };
        assert(at + 2 <= total);
        let (address, after_address) = match read_counted(bytes, at + 2) {
            None => {
                return Err(CredentialError::TruncatedData);
            },
            Some(found) => found,
        };
        let (number, after_number) = match read_counted(bytes, after_address) {
            None => {
                return Err(CredentialError::TruncatedData);
            },
            Some(found) => found,
        };
        let (name, after_name) = match read_counted(bytes, after_number) {
            None => {
                return Err(CredentialError::TruncatedData);
            },
            Some(found) => found,
        };
        let (data, end) = match read_counted(bytes, after_name) {
            None => {
                return Err(CredentialError::TruncatedData);
            },
            Some(found) => found,
        };
        match Family::from_raw(family_raw) {
            None => Err(CredentialError::InvalidFamily),
            Some(family) => Ok((Xauth { family, address, number, name, data }, end)),
        }
    }

    /// Reads the first record of an authority file, given the file's bytes.
    pub fn read_file(bytes: &[u8]) -> (r: Result<Xauth, CredentialError>)
        ensures
            match r {
                Ok(record) => record_at(bytes@, 0) matches Ok(parsed) && parsed.0 == record@,
                Err(e) => record_at(bytes@, 0) == Err::<(XauthView, int), CredentialError>(e),
            },
    {
        match Xauth::parse_at(bytes, 0) {
            Ok((record, _)) => Ok(record),
            Err(e) => Err(e),
        }
    }

    /// Decides where the authority file is, from the value of the override
    /// variable and the value of the home variable, each `None` when unset.
    /// The override wins; without either there is no path.
    pub fn get_path(xauthority: Option<String>, home: Option<String>) -> (r: Result<
        CredentialPath,
        CredentialError,
    >)
        ensures
            r == match (xauthority, home) {
                (Some(file), _) => Ok::<CredentialPath, CredentialError>(
                    CredentialPath::Override(file),
                ),
                (None, Some(directory)) => Ok::<CredentialPath, CredentialError>(
                    CredentialPath::InHome(directory),
                ),
                (None, None) => Err::<CredentialPath, CredentialError>(
                    CredentialError::UnresolvableCredentialPath,
                ),
            },
    {
        match xauthority {
            Some(file) => Ok(CredentialPath::Override(file)),
            None => match home {
                Some(directory) => Ok(CredentialPath::InHome(directory)),
                None => Err(CredentialError::UnresolvableCredentialPath),
            },
        }
    }
}

/// A cursor over the records of an authority file. It holds a position and
/// nothing else, so one record at a time is all that is ever built.
#[derive(Debug, Clone, Copy, PartialEq, Eq, Structural)]
pub struct RecordReader {
    offset: usize,
}

impl RecordReader {
    /// The position of the next record.
    pub closed spec fn position(&self) -> int {
        self.offset as int
    }

    /// A reader at the start of the file.
    pub fn new() -> (reader: RecordReader)
        ensures
            reader.position() == 0,
    {
        RecordReader { offset: 0 }
    }

    /// Goes back to the start of the file.
    pub fn restart(&mut self)
        ensures
            final(self).position() == 0,
    {
        self.offset = 0;
    }

    /// The position of the next record.
    pub fn offset(&self) -> (at: usize)
        ensures
            at == self.position(),
    {
        self.offset
    }

    /// Yields the next record of `bytes`, or `None` when the reader stands at
    /// or past the end. After a record the reader stands behind it; after an
    /// error it stands at the end, so that the sequence stops there.
    pub fn next_record(&mut self, bytes: &[u8]) -> (r: Option<Result<Xauth, CredentialError>>)
        ensures
            old(self).position() >= bytes@.len() ==> ({
                &&& r is None
                &&& final(self).position() == old(self).position()
            }),
            old(self).position() < bytes@.len() ==> (match record_at(
                bytes@,
                old(self).position(),
            ) {
                Ok((record, end)) => ({
                    &&& r matches Some(Ok(found)) && found@ == record
                    &&& final(self).position() == end
                    &&& old(self).position() < end <= bytes@.len()
                }),
                Err(e) => ({
                    &&& r == Some(Err::<Xauth, CredentialError>(e))
                    &&& final(self).position() == bytes@.len()
                }),
            }),
    {
        if self.offset >= bytes.len() {
            return None;
        }
        match Xauth::parse_at(bytes, self.offset) {
            Ok((record, end)) => {
                self.offset = end;
                Some(Ok(record))
            },
            Err(e) => {
                self.offset = bytes.len();
                Some(Err(e))
            },
        }
    }
}

} // verus!
