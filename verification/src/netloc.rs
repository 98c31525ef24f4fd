//! Network locations: how they are written, and the lists of them that are
//! kept.
//!
//! A password is never part of a location. Only the user name is kept, and
//! authentication is left to the operating system's own credential store.

use vstd::prelude::*;
use crate::pathname;
use crate::pathname::Style;
use crate::paths;
use crate::text;
use crate::text::{chars, part};

verus! {

broadcast use vstd::string::group_string_axioms;

/// How a place is reached.
#[derive(Debug, Clone, Copy, PartialEq, Eq, Structural)]
pub enum Protocol {
    Local,
    Smb,
    Ftp,
    Sftp,
    Nfs,
    Afp,
}

/// The word in front of `://`.
pub open spec fn scheme_text(protocol: Protocol) -> Seq<char> {
    match protocol {
        Protocol::Local => "file"@,
        Protocol::Smb => "smb"@,
        Protocol::Ftp => "ftp"@,
        Protocol::Sftp => "sftp"@,
        Protocol::Nfs => "nfs"@,
        Protocol::Afp => "afp"@,
    }
}

/// The protocol that a word in front of `://` stands for, in small letters.
pub open spec fn protocol_of(word: Seq<char>) -> Option<Protocol> {
    if word == "file"@ {
        Some(Protocol::Local)
    } else if word == "smb"@ || word == "cifs"@ {
        Some(Protocol::Smb)
    } else if word == "ftp"@ {
        Some(Protocol::Ftp)
    } else if word == "sftp"@ || word == "ssh"@ {
        Some(Protocol::Sftp)
    } else if word == "nfs"@ {
        Some(Protocol::Nfs)
    } else if word == "afp"@ {
        Some(Protocol::Afp)
    } else {
        None
    }
}

/// The name a person knows a protocol by.
pub open spec fn label_text(protocol: Protocol) -> Seq<char> {
    match protocol {
        Protocol::Local => "local"@,
        Protocol::Smb => "SMB"@,
        Protocol::Ftp => "FTP"@,
        Protocol::Sftp => "SFTP"@,
        Protocol::Nfs => "NFS"@,
        Protocol::Afp => "AFP"@,
    }
}

impl Protocol {
    pub fn scheme(self) -> (r: &'static str)
        ensures
            r@ == scheme_text(self),
    {
        match self {
            Protocol::Local => "file",
            Protocol::Smb => "smb",
            Protocol::Ftp => "ftp",
            Protocol::Sftp => "sftp",
            Protocol::Nfs => "nfs",
            Protocol::Afp => "afp",
        }
    }

    /// The protocol of a scheme, in whatever case it was typed.
    pub fn from_scheme(scheme: &str) -> (r: Option<Protocol>)
        ensures
            r == protocol_of(text::ascii_lower(scheme@)),
    {
        let lower: String = text::to_ascii_lower(scheme);
        let word: &str = lower.as_str();
        if text::same(word, "file") {
            Some(Protocol::Local)
        } else if text::same(word, "smb") || text::same(word, "cifs") {
            Some(Protocol::Smb)
        } else if text::same(word, "ftp") {
            Some(Protocol::Ftp)
        } else if text::same(word, "sftp") || text::same(word, "ssh") {
            Some(Protocol::Sftp)
        } else if text::same(word, "nfs") {
            Some(Protocol::Nfs)
        } else if text::same(word, "afp") {
            Some(Protocol::Afp)
        } else {
            None
        }
    }

    pub fn is_network(self) -> (r: bool)
        ensures
            r == (self != Protocol::Local),
    {
        self != Protocol::Local
    }

    pub fn label(self) -> (r: &'static str)
        ensures
            r@ == label_text(self),
    {
        match self {
            Protocol::Local => "local",
            Protocol::Smb => "SMB",
            Protocol::Ftp => "FTP",
            Protocol::Sftp => "SFTP",
            Protocol::Nfs => "NFS",
            Protocol::Afp => "AFP",
        }
    }
}

/// A saved place: either a plain directory or a network share.
#[derive(Debug, Clone, PartialEq, Eq)]
pub struct Location {
    pub name: String,
    pub protocol: Protocol,
    pub user: Option<String>,
    pub host: String,
    pub port: Option<u16>,
    /// The file system path of a local place; `share/subdirectory` of a
    /// network one.
    pub path: String,
}

/// A location with its texts as sequences of characters.
pub struct LocationView {
    pub name: Seq<char>,
    pub protocol: Protocol,
    pub user: Option<Seq<char>>,
    pub host: Seq<char>,
    pub port: Option<u16>,
    pub path: Seq<char>,
}

impl View for Location {
    type V = LocationView;

    open spec fn view(&self) -> LocationView {
        LocationView {
            name: self.name@,
            protocol: self.protocol,
            user: match self.user {
                Some(user) => Some(user@),
                None => None,
            },
            host: self.host@,
            port: self.port,
            path: self.path@,
        }
    }
}

/// The name of a path, or all of it where it has none.
pub open spec fn name_or_path(style: Style, path: Seq<char>) -> Seq<char> {
    match pathname::file_name(style, path) {
        Some(name) => name,
        None => path,
    }
}

/// The local place with a path.
pub open spec fn local_view(style: Style, path: Seq<char>) -> LocationView {
    LocationView {
        name: name_or_path(style, path),
        protocol: Protocol::Local,
        user: None,
        host: Seq::empty(),
        port: None,
        path,
    }
}

/// A name for a network place that has been given none.
pub open spec fn network_name(host: Seq<char>, path: Seq<char>) -> Seq<char> {
    if path.len() == 0 {
        host
    } else {
        host + "/"@ + path
    }
}

/// What stands behind the first `c` of a text; nothing where it has none.
pub open spec fn behind_first(s: Seq<char>, c: char) -> Seq<char> {
    let at = text::seek(s, c, 0);
    if at < s.len() {
        s.skip(at + 1)
    } else {
        Seq::empty()
    }
}

/// What stands in front of the first `c` of a text.
pub open spec fn before_first(s: Seq<char>, c: char) -> Seq<char> {
    s.take(text::seek(s, c, 0))
}

/// What stands behind the last `c` of a text; all of it where it has none.
pub open spec fn behind_last(s: Seq<char>, c: char) -> Seq<char> {
    s.skip(text::seek_back(s, c, s.len() as int) + 1)
}

/// What stands in front of the last `c` of a text, if it has one.
pub open spec fn before_last(s: Seq<char>, c: char) -> Option<Seq<char>> {
    let at = text::seek_back(s, c, s.len() as int);
    if at >= 0 {
        Some(s.take(at))
    } else {
        None
    }
}

/// The location of a Windows share, `host\share`, without the `\\` in front.
pub open spec fn unc_view(rest: Seq<char>) -> Result<LocationView, Seq<char>> {
    let slashes = text::swapped(rest, '\\', '/');
    let host = before_first(slashes, '/');
    let path = text::stripped(behind_first(slashes, '/'), '/');
    if host.len() == 0 {
        Err("UNC path is missing a host"@)
    } else {
        Ok(
            (LocationView {
                name: network_name(host, path),
                protocol: Protocol::Smb,
                user: None,
                host,
                port: None,
                path,
            }),
        )
    }
}

/// The user that stands in front of the last `@`, if there is one: the name
/// alone. What follows its first `:` is a password, and is dropped.
pub open spec fn user_of(authority: Seq<char>) -> Option<Seq<char>> {
    match before_last(authority, '@') {
        Some(before) => Some(before_first(before, ':')),
        None => None,
    }
}

/// The location of `user@host:port/path` for a network protocol.
pub open spec fn remote_view(protocol: Protocol, rest: Seq<char>) -> Result<
    LocationView,
    Seq<char>,
> {
    let authority = before_first(rest, '/');
    let path = text::stripped(behind_first(rest, '/'), '/');
    let user = user_of(authority);
    let host_port = behind_last(authority, '@');
    let port = text::parsed(behind_last(host_port, ':'), 65535);
    let host = match before_last(host_port, ':') {
        Some(host) => host,
        None => host_port,
    };
    if before_last(host_port, ':') is Some && port is None {
        Err("invalid port in "@ + host_port)
    } else if host.len() == 0 {
        Err("location is missing a host"@)
    } else {
        Ok(
            (LocationView {
                name: network_name(host, path),
                protocol,
                user,
                host,
                port: if before_last(host_port, ':') is Some {
                    Some(port->0 as u16)
                } else {
                    None
                },
                path,
            }),
        )
    }
}

/// The location that a typed text means, or why it means none.
pub open spec fn parsed(style: Style, input: Seq<char>) -> Result<LocationView, Seq<char>> {
    let raw = text::trimmed(input);
    let mark = text::seek_text(raw, "://"@, 0);
    if raw.len() == 0 {
        Err("empty location"@)
    } else if text::begins(raw, "\\\\"@) {
        unc_view(raw.skip(2))
    } else if mark <= raw.len() {
        match protocol_of(text::ascii_lower(raw.take(mark))) {
            None => Err("unsupported scheme: "@ + raw.take(mark)),
            Some(Protocol::Local) => Ok(local_view(style, raw.skip(mark + 3))),
            Some(protocol) => remote_view(protocol, raw.skip(mark + 3)),
        }
    } else {
        Ok(local_view(style, raw))
    }
}

/// `user@`, or nothing.
pub open spec fn user_prefix(user: Option<Seq<char>>) -> Seq<char> {
    match user {
        Some(user) => user + "@"@,
        None => Seq::empty(),
    }
}

/// `:port`, or nothing.
pub open spec fn port_suffix(port: Option<u16>) -> Seq<char> {
    match port {
        Some(port) => ":"@ + text::decimal(port as nat),
        None => Seq::empty(),
    }
}

/// `/path`, or nothing.
pub open spec fn path_suffix(path: Seq<char>) -> Seq<char> {
    if path.len() == 0 {
        Seq::empty()
    } else {
        "/"@ + path
    }
}

/// A location as a person writes it.
pub open spec fn url(l: LocationView) -> Seq<char> {
    if l.protocol == Protocol::Local {
        l.path
    } else {
        scheme_text(l.protocol) + "://"@ + user_prefix(l.user) + l.host + port_suffix(l.port)
            + path_suffix(l.path)
    }
}

/// Whether a byte may stand in a component of a URL as itself.
pub open spec fn unreserved(byte: u8) -> bool {
    ||| 65 <= byte <= 90
    ||| 97 <= byte <= 122
    ||| 48 <= byte <= 57
    ||| byte == 45
    ||| byte == 46
    ||| byte == 95
    ||| byte == 126
}

/// The hexadecimal digit for a value below sixteen, in capitals.
pub open spec fn hex_digit(value: int) -> char {
    if value < 10 {
        (48 + value) as char
    } else {
        (55 + value) as char
    }
}

/// One byte as it stands in a component of a URL.
pub open spec fn encoded_byte(byte: u8) -> Seq<char> {
    if unreserved(byte) {
        seq![byte as char]
    } else {
        seq!['%', hex_digit(byte as int / 16), hex_digit(byte as int % 16)]
    }
}

/// Some bytes as they stand in a component of a URL.
pub open spec fn encoded_bytes(bytes: Seq<u8>) -> Seq<char>
    decreases bytes.len(),
{
    if bytes.len() == 0 {
        Seq::empty()
    } else {
        encoded_bytes(bytes.drop_last()) + encoded_byte(bytes.last())
    }
}

/// A text as it stands in a component of a URL: percent-encoded byte by byte.
pub open spec fn encoded_text(part: Seq<char>) -> Seq<char> {
    encoded_bytes(vstd::utf8::encode_utf8(part))
}

/// The components of a path, each encoded, a `/` in front of every one.
pub open spec fn encoded_path(parts: Seq<Seq<char>>) -> Seq<char>
    decreases parts.len(),
{
    if parts.len() == 0 {
        Seq::empty()
    } else {
        encoded_path(parts.drop_last()) + "/"@ + encoded_text(parts.last())
    }
}

/// A location as a URL parser needs it.
pub open spec fn strict_url(l: LocationView) -> Seq<char> {
    if l.protocol == Protocol::Local {
        l.path
    } else {
        scheme_text(l.protocol) + "://"@ + (match l.user {
            Some(user) => encoded_text(user) + "@"@,
            None => Seq::empty(),
        }) + l.host + port_suffix(l.port) + (if l.path.len() == 0 {
            Seq::empty()
        } else {
            encoded_path(text::split(l.path, '/'))
        })
    }
}

/// One path component or user name, percent-encoded.
fn encoded(part: &str) -> (r: String)
    ensures
        r@ == encoded_text(part@),
{
    let bytes: Vec<u8> = part.as_bytes_vec();
    let mut out: String = String::new();
    let mut i: usize = 0;
    assert(bytes@.take(0) =~= Seq::<u8>::empty());
    while i < bytes.len()
        invariant
            i <= bytes@.len(),
            out@ == encoded_bytes(bytes@.take(i as int)),
        decreases bytes@.len() - i,
    {
        let byte: u8 = bytes[i];
        let ghost was = out@;
        if (65 <= byte && byte <= 90) || (97 <= byte && byte <= 122) || (48 <= byte && byte <= 57)
            || byte == 45 || byte == 46 || byte == 95 || byte == 126 {
            out.push(byte as char);
            assert(out@ =~= was + encoded_byte(byte));
        } else {
            out.push('%');
            out.push(hex_char(byte / 16));
            out.push(hex_char(byte % 16));
            assert(out@ =~= was + encoded_byte(byte));
        }
        assert(bytes@.take(i + 1).drop_last() =~= bytes@.take(i as int));
        i += 1;
    }
    assert(bytes@.take(i as int) =~= bytes@);
    out
}

fn hex_char(value: u8) -> (r: char)
    requires
        value < 16,
    ensures
        r == hex_digit(value as int),
{
    if value < 10 {
        (48 + value) as char
    } else {
        (55 + value) as char
    }
}

impl Location {
    /// The local place with a path, named after the last part of it.
    pub fn local(style: Style, path: &str) -> (r: Location)
        ensures
            r@ == local_view(style, path@),
    {
        let name: String = match pathname::file_name_of(style, path) {
            Some(name) => name,
            None => path.to_owned(),
        };
        let host: String = String::new();
        assert(host@ =~= Seq::<char>::empty());
        Location {
            name,
            protocol: Protocol::Local,
            user: None,
            host,
            port: None,
            path: path.to_owned(),
        }
    }

    /// Accepts `smb://user@host/share/sub`, a Windows UNC path
    /// `\\host\share`, or any plain file system path.
    pub fn parse(style: Style, input: &str) -> (r: Result<Location, String>)
        ensures
            match r {
                Ok(location) => parsed(style, input@) == Ok::<LocationView, Seq<char>>(location@),
                Err(why) => parsed(style, input@) == Err::<LocationView, Seq<char>>(why@),
            },
    {
        let trimmed: &str = text::trim(input);
        let raw: Vec<char> = chars(trimmed);
        if raw.len() == 0 {
            return Err("empty location".to_owned());
        }
        let unc: Vec<char> = chars("\\\\");
        if text::is_at(&raw, &unc, 0) {
            proof {
                reveal_strlit("\\\\");
            }
            let rest: Vec<char> = text::slice(&raw, 2, raw.len());
            assert(rest@ =~= raw@.skip(2));
            return Location::parse_unc(&rest);
        }
        let mark: Vec<char> = chars("://");
        match text::find_text(&raw, &mark) {
            Some(at) => {
                proof {
                    reveal_strlit("://");
                }
                let scheme: String = part(&raw, 0, at);
                assert(scheme@ =~= raw@.take(at as int));
                let rest: Vec<char> = text::slice(&raw, at + 3, raw.len());
                assert(rest@ =~= raw@.skip(at + 3));
                match Protocol::from_scheme(scheme.as_str()) {
                    None => Err(text::concat2("unsupported scheme: ", scheme.as_str())),
                    Some(protocol) => {
                        if protocol == Protocol::Local {
                            let path: String = text::string(&rest);
                            Ok(Location::local(style, path.as_str()))
                        } else {
                            Location::parse_remote(protocol, &rest)
                        }
                    },
                }
            },
            None => Ok(Location::local(style, trimmed)),
        }
    }

    fn parse_unc(rest: &Vec<char>) -> (r: Result<Location, String>)
        ensures
            match r {
                Ok(location) => unc_view(rest@) == Ok::<LocationView, Seq<char>>(location@),
                Err(why) => unc_view(rest@) == Err::<LocationView, Seq<char>>(why@),
            },
    {
        let slashes: Vec<char> = text::swap_char(rest, '\\', '/');
        let (host, path): (String, String) = Location::host_and_path(&slashes);
        if host.as_str().is_empty() {
            return Err("UNC path is missing a host".to_owned());
        }
        let name: String = Location::name_of(host.as_str(), path.as_str());
        Ok(Location { name, protocol: Protocol::Smb, user: None, host, port: None, path })
    }

    /// What stands before the first `/`, and what stands behind it without
    /// the slashes at its ends.
    fn host_and_path(s: &Vec<char>) -> (r: (String, String))
        ensures
            r.0@ == before_first(s@, '/'),
            r.1@ == text::stripped(behind_first(s@, '/'), '/'),
    {
        let len: usize = s.len();
        match text::find_char(s, '/', 0) {
            Some(at) => {
                let host: String = part(s, 0, at);
                assert(host@ =~= s@.take(at as int));
                let behind: Vec<char> = text::slice(s, at + 1, len);
                assert(behind@ =~= s@.skip(at + 1));
                let path: Vec<char> = text::strip_chars(&behind, '/');
                (host, text::string(&path))
            },
            None => {
                let host: String = text::string(s);
                assert(host@ =~= s@.take(s@.len() as int));
                let path: String = String::new();
                assert(path@ =~= text::stripped(behind_first(s@, '/'), '/'));
                (host, path)
            },
        }
    }

    fn name_of(host: &str, path: &str) -> (r: String)
        ensures
            r@ == network_name(host@, path@),
    {
        if path.is_empty() {
            host.to_owned()
        } else {
            text::concat3(host, "/", path)
        }
    }

    fn parse_remote(protocol: Protocol, rest: &Vec<char>) -> (r: Result<Location, String>)
        ensures
            match r {
                Ok(location) => remote_view(protocol, rest@) == Ok::<LocationView, Seq<char>>(
                    location@,
                ),
                Err(why) => remote_view(protocol, rest@) == Err::<LocationView, Seq<char>>(why@),
            },
    {
        let (authority_text, path): (String, String) = Location::host_and_path(rest);
        let authority: Vec<char> = chars(authority_text.as_str());
        let len: usize = authority.len();
        let (user, host_port): (Option<String>, Vec<char>) = match text::rfind_char(
            &authority,
            '@',
        ) {
            Some(at) => {
                let before: Vec<char> = text::slice(&authority, 0, at);
                assert(before@ =~= authority@.take(at as int));
                let name_end: usize = match text::find_char(&before, ':', 0) {
                    Some(colon) => colon,
                    None => at,
                };
                let user: String = part(&before, 0, name_end);
                assert(user@ =~= before_first(before@, ':'));
                let behind: Vec<char> = text::slice(&authority, at + 1, len);
                assert(behind@ =~= authority@.skip(at + 1));
                (Some(user), behind)
            },
            None => {
                assert(authority@.skip(0) =~= authority@);
                (None, authority)
            },
        };
        let hlen: usize = host_port.len();
        let (host, port): (String, Option<u16>) = match text::rfind_char(&host_port, ':') {
            Some(at) => {
                let digits: String = part(&host_port, at + 1, hlen);
                assert(digits@ =~= host_port@.skip(at + 1));
                match text::parse_unsigned(digits.as_str(), 65535) {
                    Some(port) => {
                        let host: String = part(&host_port, 0, at);
                        assert(host@ =~= host_port@.take(at as int));
                        (host, Some(port as u16))
                    },
                    None => {
                        let shown: String = text::string(&host_port);
                        return Err(text::concat2("invalid port in ", shown.as_str()));
                    },
                }
            },
            None => (text::string(&host_port), None),
        };
        if host.as_str().is_empty() {
            return Err("location is missing a host".to_owned());
        }
        let name: String = Location::name_of(host.as_str(), path.as_str());
        Ok(Location { name, protocol, user, host, port, path })
    }

    /// The share name (first path component) for network protocols.
    pub fn share(&self) -> (r: &str)
        ensures
            r@ == before_first(self.path@, '/'),
    {
        let p: Vec<char> = chars(self.path.as_str());
        let end: usize = match text::find_char(&p, '/', 0) {
            Some(at) => at,
            None => p.len(),
        };
        self.path.as_str().substring_char(0, end)
    }

    /// Everything below the share.
    pub fn subpath(&self) -> (r: &str)
        ensures
            r@ == behind_first(self.path@, '/'),
    {
        let p: Vec<char> = chars(self.path.as_str());
        let len: usize = p.len();
        match text::find_char(&p, '/', 0) {
            Some(at) => {
                let r: &str = self.path.as_str().substring_char(at + 1, len);
                assert(r@ =~= p@.skip(at + 1));
                r
            },
            None => {
                let r: &str = self.path.as_str().substring_char(len, len);
                assert(r@ =~= Seq::<char>::empty());
                r
            },
        }
    }

    /// The name a location gets where none was chosen.
    pub fn default_name(&self, style: Style) -> (r: String)
        ensures
            r@ == if self.protocol == Protocol::Local {
                name_or_path(style, self.path@)
            } else {
                network_name(self.host@, self.path@)
            },
    {
        if self.protocol == Protocol::Local {
            return match pathname::file_name_of(style, self.path.as_str()) {
                Some(name) => name,
                None => self.path.clone(),
            };
        }
        Location::name_of(self.host.as_str(), self.path.as_str())
    }

    /// The location as a person writes it, spaces and all.
    pub fn to_url(&self) -> (r: String)
        ensures
            r@ == url(self@),
    {
        if self.protocol == Protocol::Local {
            return self.path.clone();
        }
        let mut out: String = text::concat2(self.protocol.scheme(), "://");
        match &self.user {
            Some(user) => {
                out.append(text::concat2(user.as_str(), "@").as_str());
            },
            None => {
                assert(out@ =~= out@ + user_prefix(self@.user));
            },
        }
        out.append(self.host.as_str());
        self.push_port(&mut out);
        if !self.path.as_str().is_empty() {
            out.append(text::concat2("/", self.path.as_str()).as_str());
        } else {
            assert(out@ =~= out@ + path_suffix(self@.path));
        }
        out
    }

    fn push_port(&self, out: &mut String)
        ensures
            final(out)@ == old(out)@ + port_suffix(self.port),
    {
        match self.port {
            Some(port) => {
                out.append(text::concat2(":", text::decimal_text(port as u64).as_str()).as_str());
            },
            None => {
                assert(out@ =~= out@ + port_suffix(self.port));
            },
        }
    }

    /// The same location, spelled the way a URL parser needs it.
    ///
    /// Percent-encoded per component: the slashes between path segments and
    /// the `@` before the host are written here and never by the encoder.
    pub fn os_url(&self) -> (r: String)
        ensures
            r@ == strict_url(self@),
    {
        if self.protocol == Protocol::Local {
            return self.path.clone();
        }
        let mut out: String = text::concat2(self.protocol.scheme(), "://");
        match &self.user {
            Some(user) => {
                out.append(text::concat2(encoded(user.as_str()).as_str(), "@").as_str());
            },
            None => {
                assert(out@ =~= out@ + Seq::<char>::empty());
            },
        }
        out.append(self.host.as_str());
        self.push_port(&mut out);
        let ghost front = out@;
        if !self.path.as_str().is_empty() {
            let parts: Vec<String> = text::split_text(self.path.as_str(), '/');
            let ghost all = text::views(parts@);
            let mut i: usize = 0;
            assert(all.take(0) =~= Seq::<Seq<char>>::empty());
            assert(front + encoded_path(all.take(0)) =~= front);
            while i < parts.len()
                invariant
                    i <= parts@.len(),
                    all == text::views(parts@),
                    out@ == front + encoded_path(all.take(i as int)),
                decreases parts@.len() - i,
            {
                let ghost was = out@;
                let piece: String = encoded(parts[i].as_str());
                out.push('/');
                out.append(piece.as_str());
                proof {
                    reveal_strlit("/");
                    assert("/"@ =~= seq!['/']);
                    assert(all.take(i + 1).drop_last() =~= all.take(i as int));
                    assert(all.take(i + 1).last() == parts@[i as int]@);
                    assert(out@ =~= front + (encoded_path(all.take(i as int)) + "/"@ + piece@));
                }
                i += 1;
            }
            assert(all.take(i as int) =~= all);
        } else {
            assert(out@ =~= out@ + Seq::<char>::empty());
        }
        out
    }

    /// One-line description for the connections list.
    pub fn summary(&self) -> (r: String)
        ensures
            r@ == text::padded_end(label_text(self.protocol), 6) + " "@ + url(self@),
    {
        let label: String = text::pad_end(self.protocol.label(), 6);
        text::concat3(label.as_str(), " ", self.to_url().as_str())
    }
}

/// How many visited directories are kept.
pub const MAX_RECENT: usize = 20;

/// The places that were saved, and the places that were visited.
///
/// Two lists: a bookmark was chosen and is expected to be found again; a
/// recent location is a side effect of walking around.
#[derive(Debug, Clone)]
pub struct Bookmarks {
    pub locations: Vec<Location>,
    /// Most recent first.
    pub recent: Vec<Location>,
}

/// The first position at or after `from` of a location with a name; the
/// length where there is none.
pub open spec fn named_at(locations: Seq<Location>, name: Seq<char>, from: int) -> int
    decreases locations.len() - from,
{
    if from >= locations.len() {
        locations.len() as int
    } else if locations[from].name@ == name {
        from
    } else {
        named_at(locations, name, from + 1)
    }
}

/// The list with a location in it: in the place of the one with its name, or
/// at the end.
pub open spec fn with_location(locations: Seq<Location>, location: Location) -> Seq<Location> {
    let at = named_at(locations, location.name@, 0);
    if at < locations.len() {
        locations.update(at, location)
    } else {
        locations.push(location)
    }
}

/// The locations that are written otherwise than `address`, in their order.
pub open spec fn elsewhere(locations: Seq<Location>, address: Seq<char>) -> Seq<Location>
    decreases locations.len(),
{
    if locations.len() == 0 {
        Seq::empty()
    } else {
        let rest = elsewhere(locations.drop_last(), address);
        if url(locations.last()@) != address {
            rest.push(locations.last())
        } else {
            rest
        }
    }
}

/// The first of a list, `most` of them at the most.
pub open spec fn first_few(locations: Seq<Location>, most: nat) -> Seq<Location> {
    if locations.len() > most {
        locations.take(most as int)
    } else {
        locations
    }
}

/// The list of visits with one more at its head.
pub open spec fn with_visit(recent: Seq<Location>, location: Location) -> Seq<Location> {
    first_few(seq![location] + elsewhere(recent, url(location@)), MAX_RECENT as nat)
}

/// Whether a list of visits names no place twice and is not too long.
pub open spec fn tidy_visits(recent: Seq<Location>) -> bool {
    &&& recent.len() <= MAX_RECENT
    &&& forall|i: int, j: int|
        0 <= i < j < recent.len() ==> url((#[trigger] recent[i])@) != url((#[trigger] recent[j])@)
}

impl Default for Bookmarks {
    fn default() -> (r: Bookmarks)
        ensures
            r.locations@ == Seq::<Location>::empty(),
            r.recent@ == Seq::<Location>::empty(),
    {
        Bookmarks { locations: Vec::new(), recent: Vec::new() }
    }
}

impl Bookmarks {
    /// Where the bookmarks are kept.
    pub fn config_path(style: Style, config_dir: Option<&str>) -> (r: Option<String>)
        ensures
            text::optional(r) == paths::own(style, text::maybe(config_dir), "bookmarks.toml"@),
    {
        paths::own_file(style, config_dir, "bookmarks.toml")
    }

    /// Where the list of visited places is kept.
    pub fn recent_path(style: Style, config_dir: Option<&str>) -> (r: Option<String>)
        ensures
            text::optional(r) == paths::own(style, text::maybe(config_dir), "recent.toml"@),
    {
        paths::own_file(style, config_dir, "recent.toml")
    }

    /// Adding a name that already exists replaces it, so re-saving a location
    /// updates it instead of creating duplicates.
    pub fn add(&mut self, location: Location)
        ensures
            final(self).locations@ == with_location(old(self).locations@, location),
            final(self).recent == old(self).recent,
    {
        let mut i: usize = 0;
        while i < self.locations.len()
            invariant
                i <= self.locations@.len(),
                *self == *old(self),
                named_at(self.locations@, location.name@, 0) == named_at(
                    self.locations@,
                    location.name@,
                    i as int,
                ),
            decreases self.locations@.len() - i,
        {
            if text::same(self.locations[i].name.as_str(), location.name.as_str()) {
                self.locations.set(i, location);
                return ;
            }
            i += 1;
        }
        self.locations.push(location);
    }

    pub fn remove(&mut self, index: usize) -> (r: Option<Location>)
        ensures
            final(self).recent == old(self).recent,
            index < old(self).locations@.len() ==> r == Some(old(self).locations@[index as int])
                && final(self).locations@ == old(self).locations@.remove(index as int),
            index >= old(self).locations@.len() ==> r is None && *final(self) == *old(self),
    {
        if index < self.locations.len() {
            Some(self.locations.remove(index))
        } else {
            None
        }
    }

    pub fn is_empty(&self) -> (r: bool)
        ensures
            r == (self.locations@.len() == 0),
    {
        self.locations.len() == 0
    }

    pub fn len(&self) -> (r: usize)
        ensures
            r == self.locations@.len(),
    {
        self.locations.len()
    }

    /// Take over the list of visited places from the file it is kept in. One
    /// that could not be read leaves the list as it is: a file of an earlier
    /// version has it beside the bookmarks.
    pub fn load_recent_from(&mut self, file: Option<Vec<Location>>)
        ensures
            final(self).locations == old(self).locations,
            match file {
                Some(recent) => final(self).recent == recent,
                None => final(self).recent == old(self).recent,
            },
    {
        if let Some(recent) = file {
            self.recent = recent;
        }
    }

    /// Record a visit. Re-visiting somewhere moves it back to the top rather
    /// than adding a duplicate, and the list is capped at [`MAX_RECENT`].
    pub fn push_recent(&mut self, location: Location)
        ensures
            final(self).recent@ == with_visit(old(self).recent@, location),
            final(self).locations == old(self).locations,
    {
        let address: String = location.to_url();
        let ghost before = self.recent@;
        let mut i: usize = 0;
        let mut done: Ghost<int> = Ghost(0int);
        assert(before.take(0) =~= Seq::<Location>::empty());
        while i < self.recent.len()
            invariant
                i <= self.recent@.len(),
                0 <= done@ <= before.len(),
                address@ == url(location@),
                self.locations == old(self).locations,
                self.recent@.len() - i == before.len() - done@,
                self.recent@.take(i as int) == elsewhere(before.take(done@), address@),
                self.recent@.skip(i as int) == before.skip(done@),
            decreases self.recent@.len() - i,
        {
            proof {
                assert(self.recent@.skip(i as int)[0] == before.skip(done@)[0]);
                assert(before.take(done@ + 1).drop_last() =~= before.take(done@));
                assert(before.take(done@ + 1).last() == before[done@]);
            }
            let ghost now = self.recent@;
            if text::same(self.recent[i].to_url().as_str(), address.as_str()) {
                self.recent.remove(i);
                proof {
                    assert(self.recent@.take(i as int) =~= now.take(i as int));
                    assert(self.recent@.skip(i as int) =~= now.skip(i as int).skip(1));
                    assert(before.skip(done@).skip(1) =~= before.skip(done@ + 1));
                }
            } else {
                proof {
                    assert(now.take(i + 1) =~= now.take(i as int).push(now[i as int]));
                    assert(now.skip(i + 1) =~= now.skip(i as int).skip(1));
                    assert(before.skip(done@).skip(1) =~= before.skip(done@ + 1));
                }
                i += 1;
            }
            proof {
                done@ = done@ + 1;
            }
        }
        proof {
            assert(before.take(done@) =~= before);
            assert(self.recent@.take(i as int) =~= self.recent@);
        }
        self.recent.insert(0, location);
        assert(self.recent@ =~= seq![location] + elsewhere(before, address@));
        self.recent.truncate(MAX_RECENT);
    }

    pub fn remove_recent(&mut self, index: usize) -> (r: Option<Location>)
        ensures
            final(self).locations == old(self).locations,
            index < old(self).recent@.len() ==> r == Some(old(self).recent@[index as int])
                && final(self).recent@ == old(self).recent@.remove(index as int),
            index >= old(self).recent@.len() ==> r is None && *final(self) == *old(self),
    {
        if index < self.recent.len() {
            Some(self.recent.remove(index))
        } else {
            None
        }
    }

    pub fn clear_recent(&mut self)
        ensures
            final(self).recent@ == Seq::<Location>::empty(),
            final(self).locations == old(self).locations,
    {
        self.recent.clear();
    }
}

// ---- laws ------------------------------------------------------------------------

/// Whether a location is one that a URL can say in full: on the network, with
/// a host that holds no separator, a user without a slash or a colon, and a path
/// with no slash or white space at its ends.
pub open spec fn sayable(l: LocationView) -> bool {
    &&& l.protocol != Protocol::Local
    &&& l.host.len() > 0
    &&& forall|i: int| 0 <= i < l.host.len() ==> l.host[i] != '/' && l.host[i] != '@'
    &&& l.port is None ==> forall|i: int| 0 <= i < l.host.len() ==> l.host[i] != ':'
    &&& l.user matches Some(user) ==> forall|i: int|
        0 <= i < user.len() ==> user[i] != '/' && user[i] != ':'
    &&& text::stripped(l.path, '/') == l.path
    &&& text::trimmed(url(l)) == url(l)
}

proof fn lemma_scheme(protocol: Protocol)
    requires
        protocol != Protocol::Local,
    ensures
        protocol_of(text::ascii_lower(scheme_text(protocol))) == Some(protocol),
        3 <= scheme_text(protocol).len() <= 4,
        forall|i: int|
            0 <= i < scheme_text(protocol).len() ==> 'a' <= #[trigger] scheme_text(protocol)[i]
                <= 'z',
{
    reveal_strlit("file");
    reveal_strlit("smb");
    reveal_strlit("cifs");
    reveal_strlit("ftp");
    reveal_strlit("sftp");
    reveal_strlit("ssh");
    reveal_strlit("nfs");
    reveal_strlit("afp");
    let s = scheme_text(protocol);
    assert(text::ascii_lower(s) =~= s);
    assert("smb"@[0] == 's' && "ftp"@[0] == 'f' && "sftp"@.len() == 4 && "nfs"@[0] == 'n'
        && "afp"@[0] == 'a');
    assert("file"@.len() == 4 && "file"@[0] == 'f' && "sftp"@[0] == 's');
    assert("cifs"@.len() == 4 && "cifs"@[0] == 'c' && "ssh"@[1] == 's' && "smb"@[1] == 'm');
}

/// What a network location writes of itself, read again, is that location
/// under the name it gets by default.
pub proof fn law_url_reads_back(style: Style, l: LocationView)
    requires
        sayable(l),
    ensures
        parsed(style, url(l)) == Ok::<LocationView, Seq<char>>(
            (LocationView { name: network_name(l.host, l.path), ..l }),
        ),
{
    lemma_scheme(l.protocol);
    reveal_strlit("://");
    reveal_strlit("\\\\");
    reveal_strlit("/");
    reveal_strlit("@");
    reveal_strlit(":");
    let raw = url(l);
    let scheme = scheme_text(l.protocol);
    let n = scheme.len() as int;
    let authority = user_prefix(l.user) + l.host + port_suffix(l.port);
    let rest = authority + path_suffix(l.path);
    assert(raw =~= scheme + "://"@ + rest);
    assert(raw.take(n) =~= scheme);
    assert(raw.skip(n + 3) =~= rest);
    assert(raw[0] == scheme[0]);
    assert(!text::begins(raw, "\\\\"@)) by {
        if text::begins(raw, "\\\\"@) {
            assert(raw.subrange(0, 2)[0] == "\\\\"@[0]);
        }
    }
    assert(raw.subrange(n, n + 3) =~= "://"@);
    assert forall|j: int| 0 <= j < n implies !text::stands_at(raw, "://"@, j) by {
        if text::stands_at(raw, "://"@, j) {
            assert(raw.subrange(j, j + 3)[0] == "://"@[0]);
            assert(raw[j] == scheme[j]);
        }
    }
    text::lemma_seek_text_is(raw, "://"@, 0, n);
    law_remote_reads_back(l);
}

proof fn law_remote_reads_back(l: LocationView)
    requires
        sayable(l),
    ensures
        remote_view(
            l.protocol,
            user_prefix(l.user) + l.host + port_suffix(l.port) + path_suffix(l.path),
        ) == Ok::<LocationView, Seq<char>>(
            (LocationView { name: network_name(l.host, l.path), ..l }),
        ),
{
    reveal_strlit("/");
    reveal_strlit("@");
    reveal_strlit(":");
    let prefix = user_prefix(l.user);
    let suffix = port_suffix(l.port);
    let authority = prefix + l.host + suffix;
    let rest = authority + path_suffix(l.path);
    if let Some(port) = l.port {
        text::lemma_decimal_reads(port as nat);
    }
    let digits = match l.port {
        Some(port) => text::decimal(port as nat),
        None => Seq::empty(),
    };
    // No slash in the authority.
    assert forall|j: int| 0 <= j < authority.len() implies authority[j] != '/' by {
        if j < prefix.len() {
            assert(authority[j] == prefix[j]);
            if j < prefix.len() - 1 {
                assert(prefix[j] == l.user->0[j]);
            }
        } else if j < prefix.len() + l.host.len() {
            assert(authority[j] == l.host[j - prefix.len()]);
        } else {
            assert(authority[j] == suffix[j - prefix.len() - l.host.len()]);
            if j > prefix.len() + l.host.len() {
                assert(suffix[j - prefix.len() - l.host.len()] == digits[j - prefix.len()
                    - l.host.len() - 1]);
            }
        }
    }
    assert forall|j: int| 0 <= j < authority.len() implies rest[j] != '/' by {
        assert(rest[j] == authority[j]);
    }
    text::lemma_seek_is(rest, '/', 0, authority.len() as int);
    assert(before_first(rest, '/') =~= authority);
    if l.path.len() > 0 {
        assert(rest.skip(authority.len() as int + 1) =~= l.path);
    } else {
        assert(behind_first(rest, '/') =~= l.path);
    }
    assert(text::stripped(behind_first(rest, '/'), '/') == l.path);
    // The last `@` is the one behind the user.
    let host_port = l.host + suffix;
    let cut = prefix.len() - 1;
    assert forall|j: int| cut < j < authority.len() implies authority[j] != '@' by {
        if j < prefix.len() + l.host.len() {
            assert(authority[j] == l.host[j - prefix.len()]);
        } else {
            assert(authority[j] == suffix[j - prefix.len() - l.host.len()]);
            if j > prefix.len() + l.host.len() {
                assert(suffix[j - prefix.len() - l.host.len()] == digits[j - prefix.len()
                    - l.host.len() - 1]);
            }
        }
    }
    if l.user is Some {
        assert(authority[cut] == prefix[cut]);
        assert(prefix[cut] == '@');
    }
    text::lemma_seek_back_is(authority, '@', authority.len() as int, cut);
    assert(behind_last(authority, '@') =~= host_port);
    if let Some(user) = l.user {
        assert(authority.take(cut) =~= user);
        text::lemma_seek_is(user, ':', 0, user.len() as int);
        assert(before_first(user, ':') =~= user);
    }
    // The last `:` is the one in front of the port.
    match l.port {
        Some(port) => {
            let at = l.host.len() as int;
            assert(host_port[at] == ':');
            assert forall|j: int| at < j < host_port.len() implies host_port[j] != ':' by {
                assert(host_port[j] == digits[j - at - 1]);
            }
            text::lemma_seek_back_is(host_port, ':', host_port.len() as int, at);
            assert(host_port.take(at) =~= l.host);
            assert(host_port.skip(at + 1) =~= digits);
            assert(text::unsigned(digits) == digits) by {
                assert('0' <= digits[0] <= '9');
            }
        },
        None => {
            assert(host_port =~= l.host);
            text::lemma_seek_back_is(host_port, ':', host_port.len() as int, -1);
        },
    }
}

/// A password is kept nowhere: whatever is typed, the user of a location is a
/// name that no `:` parts from anything.
pub proof fn law_no_password_is_kept(style: Style, input: Seq<char>)
    ensures
        parsed(style, input) matches Ok(l) ==> (l.user matches Some(user) ==> forall|i: int|
            0 <= i < user.len() ==> user[i] != ':'),
{
    let raw = text::trimmed(input);
    let mark = text::seek_text(raw, "://"@, 0);
    if mark <= raw.len() {
        let authority = before_first(raw.skip(mark + 3), '/');
        if let Some(before) = before_last(authority, '@') {
            text::lemma_seek(before, ':', 0);
        }
    }
}

/// A local location writes its path, and the path read again is that location
/// under the name it gets by default: any path that says no scheme, is not
/// written the way Windows writes a share, and has no white space at its ends.
pub proof fn law_local_path_reads_back(style: Style, l: LocationView)
    requires
        l == local_view(style, l.path),
        l.path.len() > 0,
        text::trimmed(l.path) == l.path,
        !text::begins(l.path, "\\\\"@),
        text::seek_text(l.path, "://"@, 0) > l.path.len(),
    ensures
        parsed(style, url(l)) == Ok::<LocationView, Seq<char>>(l),
{
}

/// Recording a visit puts it at the head, and keeps the list free of
/// duplicates and within its limit.
pub proof fn law_visits_stay_tidy(recent: Seq<Location>, location: Location)
    requires
        tidy_visits(recent),
    ensures
        tidy_visits(with_visit(recent, location)),
        with_visit(recent, location)[0] == location,
        with_visit(recent, location).len() >= 1,
{
    lemma_elsewhere(recent, url(location@));
    let rest = elsewhere(recent, url(location@));
    let all = seq![location] + rest;
    assert forall|i: int, j: int| 0 <= i < j < all.len() implies url((#[trigger] all[i])@) != url(
        (#[trigger] all[j])@,
    ) by {
        assert(all[j] == rest[j - 1]);
        if i > 0 {
            assert(all[i] == rest[i - 1]);
        }
    }
}

proof fn lemma_elsewhere(locations: Seq<Location>, address: Seq<char>)
    requires
        forall|i: int, j: int|
            0 <= i < j < locations.len() ==> url((#[trigger] locations[i])@) != url(
                (#[trigger] locations[j])@,
            ),
    ensures
        ({
            let rest = elsewhere(locations, address);
            &&& rest.len() <= locations.len()
            &&& forall|i: int| 0 <= i < rest.len() ==> url((#[trigger] rest[i])@) != address
            &&& forall|i: int|
                0 <= i < rest.len() ==> exists|k: int|
                    0 <= k < locations.len() && locations[k] == #[trigger] rest[i]
            &&& forall|i: int, j: int|
                0 <= i < j < rest.len() ==> url((#[trigger] rest[i])@) != url(
                    (#[trigger] rest[j])@,
                )
        }),
    decreases locations.len(),
{
    if locations.len() > 0 {
        let shorter = locations.drop_last();
        lemma_elsewhere(shorter, address);
        let rest = elsewhere(locations, address);
        let front = elsewhere(shorter, address);
        assert forall|i: int| 0 <= i < rest.len() implies exists|k: int|
            0 <= k < locations.len() && locations[k] == #[trigger] rest[i] by {
            if i < front.len() {
                let k = choose|k: int| 0 <= k < shorter.len() && shorter[k] == front[i];
                assert(locations[k] == rest[i]);
            } else {
                assert(locations[locations.len() - 1] == rest[i]);
            }
        }
        assert forall|i: int, j: int| 0 <= i < j < rest.len() implies url((#[trigger] rest[i])@)
            != url((#[trigger] rest[j])@) by {
            if j == front.len() {
                let k = choose|k: int| 0 <= k < shorter.len() && shorter[k] == front[i];
                assert(locations[k] == rest[i]);
                assert(locations[locations.len() - 1] == rest[j]);
            }
        }
    }
}

/// Saving a location twice under one name leaves one location of that name,
/// the later one.
pub proof fn law_saving_again_updates(
    locations: Seq<Location>,
    first: Location,
    second: Location,
)
    requires
        first.name@ == second.name@,
    ensures
        with_location(with_location(locations, first), second) == with_location(locations, second),
{
    lemma_named_at(locations, first.name@, 0);
    let at = named_at(locations, first.name@, 0);
    let once = with_location(locations, first);
    lemma_named_at(once, first.name@, 0);
    let again = named_at(once, first.name@, 0);
    assert(again == at) by {
        if again < at {
            assert(once[again] == locations[again]);
        } else if again > at {
            assert(once[at].name@ == first.name@);
        }
    }
    assert(with_location(once, second) =~= with_location(locations, second));
}

proof fn lemma_named_at(locations: Seq<Location>, name: Seq<char>, from: int)
    requires
        0 <= from <= locations.len(),
    ensures
        from <= named_at(locations, name, from) <= locations.len(),
        named_at(locations, name, from) < locations.len() ==> locations[named_at(
            locations,
            name,
            from,
        )].name@ == name,
        forall|i: int|
            from <= i < named_at(locations, name, from) ==> (#[trigger] locations[i]).name@ != name,
    decreases locations.len() - from,
{
    if from < locations.len() && locations[from].name@ != name {
        lemma_named_at(locations, name, from + 1);
    }
}

/// Whether a text is made of characters that a URL keeps as they are.
pub open spec fn ordinary(s: Seq<char>) -> bool {
    forall|i: int|
        0 <= i < s.len() ==> '\0' <= #[trigger] s[i] <= '\u{7f}' && unreserved(s[i] as u8)
}

/// A location with nothing but ordinary names in it is handed to the
/// operating system exactly as a person reads it.
pub proof fn law_ordinary_names_are_left_alone(l: LocationView)
    requires
        l.user matches Some(user) ==> ordinary(user),
        forall|i: int|
            0 <= i < text::split(l.path, '/').len() ==> ordinary(
                #[trigger] text::split(l.path, '/')[i],
            ),
    ensures
        strict_url(l) == url(l),
{
    if let Some(user) = l.user {
        lemma_ordinary_encoded(user);
    }
    lemma_ordinary_path(text::split(l.path, '/'));
    text::lemma_split_glued(l.path, '/');
    reveal_strlit("/");
    assert("/"@ =~= seq!['/']);
}

proof fn lemma_ordinary_path(parts: Seq<Seq<char>>)
    requires
        forall|i: int| 0 <= i < parts.len() ==> ordinary(#[trigger] parts[i]),
    ensures
        encoded_path(parts) == text::glued(parts, '/'),
    decreases parts.len(),
{
    reveal_strlit("/");
    assert("/"@ =~= seq!['/']);
    if parts.len() > 0 {
        let front = parts.drop_last();
        assert forall|i: int| 0 <= i < front.len() implies ordinary(#[trigger] front[i]) by {
            assert(front[i] == parts[i]);
        }
        lemma_ordinary_path(front);
        lemma_ordinary_encoded(parts[parts.len() - 1]);
    }
}

proof fn lemma_ordinary_encoded(s: Seq<char>)
    requires
        ordinary(s),
    ensures
        encoded_text(s) == s,
{
    vstd::utf8::is_ascii_chars_encode_utf8(s);
    let bytes = vstd::utf8::encode_utf8(s);
    lemma_unreserved_bytes(bytes, s);
}

proof fn lemma_unreserved_bytes(bytes: Seq<u8>, s: Seq<char>)
    requires
        bytes.len() == s.len(),
        forall|i: int|
            0 <= i < s.len() ==> (#[trigger] bytes[i]) as char == s[i] && unreserved(bytes[i]),
    ensures
        encoded_bytes(bytes) == s,
    decreases bytes.len(),
{
    if bytes.len() > 0 {
        lemma_unreserved_bytes(bytes.drop_last(), s.drop_last());
        assert(encoded_bytes(bytes) =~= s.drop_last() + seq![s.last()]);
        assert(s.drop_last() + seq![s.last()] =~= s);
    } else {
        assert(encoded_bytes(bytes) =~= s);
    }
}

/// The value of a hexadecimal digit in capitals.
pub open spec fn hex_value(c: char) -> int {
    if '0' <= c <= '9' {
        c as int - 48
    } else {
        c as int - 55
    }
}

/// The bytes that a component of a URL stands for.
pub open spec fn percent_read(s: Seq<char>) -> Seq<u8>
    decreases s.len(),
{
    if s.len() == 0 {
        Seq::empty()
    } else if s[0] == '%' && s.len() >= 3 {
        seq![(hex_value(s[1]) * 16 + hex_value(s[2])) as u8] + percent_read(s.skip(3))
    } else {
        seq![s[0] as u8] + percent_read(s.skip(1))
    }
}

proof fn lemma_encoded_front(bytes: Seq<u8>)
    requires
        bytes.len() > 0,
    ensures
        encoded_bytes(bytes) == encoded_byte(bytes[0]) + encoded_bytes(bytes.skip(1)),
    decreases bytes.len(),
{
    let front = bytes.drop_last();
    if bytes.len() == 1 {
        assert(front =~= Seq::empty() && bytes.skip(1) =~= Seq::empty());
        assert(encoded_bytes(front) =~= Seq::empty());
        assert(encoded_bytes(front) + encoded_byte(bytes[0]) =~= encoded_byte(bytes[0]));
        assert(encoded_byte(bytes[0]) + encoded_bytes(bytes.skip(1)) =~= encoded_byte(bytes[0]));
    } else {
        lemma_encoded_front(front);
        assert(front[0] == bytes[0]);
        assert(front.skip(1) =~= bytes.skip(1).drop_last());
        assert(bytes.skip(1).last() == bytes.last());
        assert(encoded_bytes(bytes) =~= encoded_byte(bytes[0]) + (encoded_bytes(front.skip(1))
            + encoded_byte(bytes.last())));
    }
}

/// What a name is encoded to stands for the name's own bytes.
pub proof fn law_encoding_reads_back(bytes: Seq<u8>)
    ensures
        percent_read(encoded_bytes(bytes)) == bytes,
    decreases bytes.len(),
{
    if bytes.len() > 0 {
        let byte = bytes[0];
        let rest = bytes.skip(1);
        lemma_encoded_front(bytes);
        law_encoding_reads_back(rest);
        let all = encoded_bytes(bytes);
        if unreserved(byte) {
            assert(all[0] == byte as char);
            assert(all.skip(1) =~= encoded_bytes(rest));
        } else {
            assert(all[0] == '%');
            assert(all[1] == hex_digit(byte as int / 16) && all[2] == hex_digit(
                byte as int % 16,
            ));
            assert(all.skip(3) =~= encoded_bytes(rest));
        }
        assert(seq![byte] + rest =~= bytes);
    }
}

/// The separators of a URL survive: none of them comes out of a name, so each
/// one in the URL is one that was written as such.
pub proof fn law_no_separator_comes_from_a_name(bytes: Seq<u8>, i: int)
    requires
        0 <= i < encoded_bytes(bytes).len(),
    ensures
        ({
            let c = encoded_bytes(bytes)[i];
            c != '/' && c != '@' && c != ':' && c != '?' && c != '#'
        }),
    decreases bytes.len(),
{
    let front = bytes.drop_last();
    if i < encoded_bytes(front).len() {
        law_no_separator_comes_from_a_name(front, i);
    }
}

/// A text is what stands in front of a character, the character and what
/// stands behind it: at its first place, and at its last.
pub proof fn law_a_text_is_cut_in_two(s: Seq<char>, c: char)
    ensures
        s.contains(c) ==> s == before_first(s, c) + seq![c] + behind_first(s, c),
        !s.contains(c) ==> before_first(s, c) == s && behind_first(s, c).len() == 0,
        !before_first(s, c).contains(c),
        s.contains(c) ==> before_last(s, c) is Some && s == before_last(s, c)->0 + seq![c]
            + behind_last(s, c),
        !s.contains(c) ==> before_last(s, c) is None && behind_last(s, c) == s,
        !behind_last(s, c).contains(c),
{
    text::lemma_seek(s, c, 0);
    text::lemma_seek_back(s, c, s.len() as int);
    let at = text::seek(s, c, 0);
    let back = text::seek_back(s, c, s.len() as int);
    if s.contains(c) {
        let k = choose|k: int| 0 <= k < s.len() && s[k] == c;
        assert(at < s.len());
        assert(back >= 0);
        assert(s =~= before_first(s, c) + seq![c] + behind_first(s, c));
        assert(s =~= before_last(s, c)->0 + seq![c] + behind_last(s, c));
    } else {
        if at < s.len() {
            assert(s.contains(s[at]));
        }
        if back >= 0 {
            assert(s.contains(s[back]));
        }
        assert(before_first(s, c) =~= s);
        assert(behind_last(s, c) =~= s);
    }
}

/// What follows the host of a URL is its path, whatever slashes stand around
/// it; it decides nothing else but the name.
pub proof fn law_the_path_follows_the_host(
    protocol: Protocol,
    authority: Seq<char>,
    path: Seq<char>,
)
    requires
        !authority.contains('/'),
    ensures
        match (
            remote_view(protocol, authority),
            remote_view(protocol, authority + seq!['/'] + path),
        ) {
            (Ok(bare), Ok(full)) => {
                &&& full.path == text::stripped(path, '/')
                &&& bare.path.len() == 0
                &&& full.host == bare.host && full.user == bare.user && full.port == bare.port
                &&& full.protocol == protocol && bare.protocol == protocol
                &&& bare.name == bare.host
            },
            (Err(one), Err(other)) => one == other,
            _ => false,
        },
{
    let rest = authority + seq!['/'] + path;
    assert forall|j: int| 0 <= j < authority.len() implies authority[j] != '/' by {
        assert(authority.contains(authority[j]));
    }
    text::lemma_seek_is(rest, '/', 0, authority.len() as int);
    text::lemma_seek_is(authority, '/', 0, authority.len() as int);
    assert(before_first(rest, '/') =~= authority);
    assert(behind_first(rest, '/') =~= path);
    assert(before_first(authority, '/') =~= authority);
    assert(text::stripped(behind_first(authority, '/'), '/') =~= Seq::<char>::empty());
}

/// What stands in front of the last `@` says who, up to a `:`; the rest is
/// the host, with a port behind the last `:` where there is one.
pub proof fn law_the_host_follows_the_user(
    protocol: Protocol,
    user: Seq<char>,
    password: Seq<char>,
    host: Seq<char>,
    port: u16,
)
    requires
        forall|i: int| 0 <= i < user.len() ==> user[i] != '/' && user[i] != ':' && user[i] != '@',
        forall|i: int| 0 <= i < password.len() ==> password[i] != '/',
        forall|i: int|
            0 <= i < host.len() ==> host[i] != '/' && host[i] != ':' && host[i] != '@',
        host.len() > 0,
    ensures
        ({
            let plain = remote_view(protocol, host);
            let ported = remote_view(protocol, host + seq![':'] + text::decimal(port as nat));
            let named = remote_view(protocol, user + seq!['@'] + host);
            let locked = remote_view(protocol, user + seq![':'] + password + seq!['@'] + host);
            &&& plain is Ok && plain->Ok_0.host == host && plain->Ok_0.user is None
                && plain->Ok_0.port is None
            &&& ported is Ok && ported->Ok_0.host == host && ported->Ok_0.user is None
                && ported->Ok_0.port == Some(port)
            &&& named is Ok && named->Ok_0.host == host && named->Ok_0.user == Some(user)
                && named->Ok_0.port is None
            &&& locked == named
        }),
{
    let digits = text::decimal(port as nat);
    text::lemma_decimal_reads(port as nat);
    assert forall|i: int| 0 <= i < digits.len() implies digits[i] != '/' && digits[i] != ':'
        && digits[i] != '@' by {
        assert('0' <= digits[i] <= '9');
    }
    assert('0' <= digits[0] <= '9');
    let none = Seq::<char>::empty();
    assert(text::stripped(none, '/') =~= none);
    // Nothing but a host.
    text::lemma_seek_is(host, '/', 0, host.len() as int);
    assert(before_first(host, '/') =~= host);
    text::lemma_seek_back_is(host, '@', host.len() as int, -1);
    text::lemma_seek_back_is(host, ':', host.len() as int, -1);
    assert(behind_last(host, '@') =~= host);
    assert(behind_last(host, ':') =~= host);
    // With a port.
    let a = host + seq![':'] + digits;
    text::lemma_seek_is(a, '/', 0, a.len() as int);
    assert(before_first(a, '/') =~= a);
    text::lemma_seek_back_is(a, '@', a.len() as int, -1);
    assert(behind_last(a, '@') =~= a);
    text::lemma_seek_back_is(a, ':', a.len() as int, host.len() as int);
    assert(behind_last(a, ':') =~= digits);
    assert(a.take(host.len() as int) =~= host);
    // With a user.
    let b = user + seq!['@'] + host;
    text::lemma_seek_is(b, '/', 0, b.len() as int);
    assert(before_first(b, '/') =~= b);
    text::lemma_seek_back_is(b, '@', b.len() as int, user.len() as int);
    assert(behind_last(b, '@') =~= host);
    assert(b.take(user.len() as int) =~= user);
    text::lemma_seek_is(user, ':', 0, user.len() as int);
    assert(before_first(user, ':') =~= user);
    // With a password as well.
    let who = user + seq![':'] + password;
    let c = who + seq!['@'] + host;
    text::lemma_seek_is(c, '/', 0, c.len() as int);
    assert(before_first(c, '/') =~= c);
    text::lemma_seek_back_is(c, '@', c.len() as int, who.len() as int);
    assert(behind_last(c, '@') =~= host);
    assert(c.take(who.len() as int) =~= who);
    text::lemma_seek_is(who, ':', 0, user.len() as int);
    assert(before_first(who, ':') =~= user);
    assert(remote_view(protocol, b) == remote_view(protocol, c));
}

/// A UNC path names a host and then what lies there, with either slash.
pub proof fn law_a_unc_path_names_host_and_path(host: Seq<char>, path: Seq<char>)
    requires
        host.len() > 0,
        !host.contains('/'),
        !host.contains('\\'),
    ensures
        unc_view(host + seq!['\\'] + path) is Ok,
        unc_view(host + seq!['\\'] + path)->Ok_0.host == host,
        unc_view(host + seq!['\\'] + path)->Ok_0.path == text::stripped(
            text::swapped(path, '\\', '/'),
            '/',
        ),
        unc_view(host + seq!['\\'] + path)->Ok_0.protocol == Protocol::Smb,
        unc_view(host + seq!['\\'] + path)->Ok_0.user is None,
        unc_view(host + seq!['\\'] + path)->Ok_0.port is None,
{
    let rest = host + seq!['\\'] + path;
    let slashes = text::swapped(rest, '\\', '/');
    assert forall|j: int| 0 <= j < host.len() implies host[j] != '/' && host[j] != '\\' by {
        assert(host.contains(host[j]));
    }
    text::lemma_seek_is(slashes, '/', 0, host.len() as int);
    assert(before_first(slashes, '/') =~= host);
    assert(behind_first(slashes, '/') =~= text::swapped(path, '\\', '/'));
}

/// A visit goes to the front, and the others follow in their order but for
/// one to the same address, twenty at the most.
pub proof fn law_the_newest_visit_comes_first(recent: Seq<Location>, location: Location)
    ensures
        ({
            let all = seq![location] + recent.filter(
                |other: Location| url(other@) != url(location@),
            );
            with_visit(recent, location) == if all.len() <= 20 {
                all
            } else {
                all.take(20)
            }
        }),
{
    lemma_elsewhere_filter(recent, url(location@));
    assert(recent.filter(|other: Location| url(other@) != url(location@)) =~= elsewhere(
        recent,
        url(location@),
    )) by {
        let address = url(location@);
        let p = |other: Location| url(other@) != url(location@);
        let q = |other: Location| url(other@) != address;
        assert(p =~= q);
    }
}

proof fn lemma_elsewhere_filter(locations: Seq<Location>, address: Seq<char>)
    ensures
        elsewhere(locations, address) == locations.filter(
            |other: Location| url(other@) != address,
        ),
    decreases locations.len(),
{
    reveal(Seq::filter);
    if locations.len() > 0 {
        lemma_elsewhere_filter(locations.drop_last(), address);
    }
}

/// Saving a location touches no other: it takes the place of the one of its
/// name, or comes behind all.
pub proof fn law_saving_touches_one_location(locations: Seq<Location>, location: Location, i: int)
    requires
        0 <= i < locations.len(),
    ensures
        locations[i].name@ != location.name@ ==> with_location(locations, location)[i]
            == locations[i],
        with_location(locations, location).contains(location),
        with_location(locations, location).len() <= locations.len() + 1,
        with_location(locations, location).len() > locations.len() <==> forall|j: int|
            0 <= j < locations.len() ==> (#[trigger] locations[j]).name@ != location.name@,
{
    lemma_named_at(locations, location.name@, 0);
    let at = named_at(locations, location.name@, 0);
    let out = with_location(locations, location);
    assert(out[at] == location);
}

} // verus!
