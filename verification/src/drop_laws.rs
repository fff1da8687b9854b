//! What a dropped list of files names.
use vstd::prelude::*;
use vstd::string::*;
use vstd::utf8::*;

use crate::text::{first_index_unique, lower_char, lower_text, trim_both, trim_keeps, white_char};
use crate::wayland_drop::{
    digit_value, file_of, files_of, local_part, named, percent_byte, unescaped, usable,
};

verus! {

/// How a byte of a path is written in a URI.
pub enum Spelling {
    Plain,
    LowerHex,
    UpperHex,
}

/// A hexadecimal digit, as a byte.
pub open spec fn hex(n: int, upper: bool) -> u8 {
    if n < 10 {
        (48 + n) as u8
    } else if upper {
        (65 + n - 10) as u8
    } else {
        (97 + n - 10) as u8
    }
}

pub open spec fn spelled(b: u8, how: Spelling) -> Seq<u8> {
    if how is Plain {
        seq![b]
    } else {
        seq![0x25u8, hex(b as int / 16, how is UpperHex), hex(b as int % 16, how is UpperHex)]
    }
}

/// The bytes of a path, each written in its way.
pub open spec fn written(bytes: Seq<u8>, how: Seq<Spelling>) -> Seq<u8>
    decreases bytes.len(),
{
    if bytes.len() == 0 {
        seq![]
    } else {
        spelled(bytes[0], how[0]) + written(bytes.drop_first(), how.drop_first())
    }
}

/// A percent sign itself is always written in digits.
pub open spec fn escaping(bytes: Seq<u8>, how: Seq<Spelling>) -> bool {
    &&& how.len() == bytes.len()
    &&& forall|i: int| 0 <= i < bytes.len() && #[trigger] bytes[i] == 0x25 ==> !(how[i] is Plain)
}

proof fn digits_are_valued(n: int, upper: bool)
    requires
        0 <= n < 16,
    ensures
        digit_value(hex(n, upper)) == Some(n as u8),
        hex(n, upper) != 0x2b,
        hex(n, upper) < 128,
{
}

/// However the bytes of a path are written, plain or in digits of either case, they are
/// read back as they were.
pub proof fn escapes_read_back(bytes: Seq<u8>, how: Seq<Spelling>)
    requires
        escaping(bytes, how),
    ensures
        unescaped(written(bytes, how)) == Some(bytes),
    decreases bytes.len(),
{
    if bytes.len() == 0 {
        assert(bytes =~= Seq::<u8>::empty());
    } else {
        let rest = bytes.drop_first();
        let more = how.drop_first();
        assert forall|i: int| 0 <= i < rest.len() && #[trigger] rest[i] == 0x25 implies !(
        more[i] is Plain) by {
            assert(bytes[i + 1] == rest[i]);
        }
        escapes_read_back(rest, more);
        let all = written(bytes, how);
        let b = bytes[0];
        assert(bytes =~= seq![b] + rest);
        if how[0] is Plain {
            assert(all[0] == b);
            assert(b != 0x25);
            assert(all.skip(1) =~= written(rest, more));
        } else {
            let upper = how[0] is UpperHex;
            digits_are_valued(b as int / 16, upper);
            digits_are_valued(b as int % 16, upper);
            assert(all[0] == 0x25);
            assert(all[1] == hex(b as int / 16, upper) && all[2] == hex(b as int % 16, upper));
            assert(percent_byte(all[1], all[2]) == Some(b));
            assert(all.skip(3) =~= written(rest, more));
        }
    }
}

pub open spec fn as_text(bytes: Seq<u8>) -> Seq<char> {
    bytes.map_values(|b: u8| b as char)
}

/// A writing of ASCII alone: all other bytes are written in digits.
pub open spec fn ascii_only(bytes: Seq<u8>, how: Seq<Spelling>) -> bool {
    forall|i: int| 0 <= i < bytes.len() && #[trigger] bytes[i] >= 128 ==> !(how[i] is Plain)
}

proof fn writings_are_ascii(bytes: Seq<u8>, how: Seq<Spelling>)
    requires
        escaping(bytes, how),
        ascii_only(bytes, how),
    ensures
        forall|i: int|
            0 <= i < written(bytes, how).len() ==> #[trigger] written(bytes, how)[i] < 128,
    decreases bytes.len(),
{
    if bytes.len() > 0 {
        let rest = bytes.drop_first();
        let more = how.drop_first();
        assert forall|i: int| 0 <= i < rest.len() && #[trigger] rest[i] == 0x25 implies !(
        more[i] is Plain) by {
            assert(bytes[i + 1] == rest[i]);
        }
        assert forall|i: int| 0 <= i < rest.len() && #[trigger] rest[i] >= 128 implies !(
        more[i] is Plain) by {
            assert(bytes[i + 1] == rest[i]);
        }
        writings_are_ascii(rest, more);
        let b = bytes[0];
        digits_are_valued(b as int / 16, how[0] is UpperHex);
        digits_are_valued(b as int % 16, how[0] is UpperHex);
        let head = spelled(b, how[0]);
        let tail = written(rest, more);
        assert forall|i: int| 0 <= i < written(bytes, how).len() implies #[trigger] written(
            bytes,
            how,
        )[i] < 128 by {
            if i >= head.len() {
                assert(written(bytes, how)[i] == tail[i - head.len()]);
            }
        }
    }
}

proof fn text_is_bytes(bytes: Seq<u8>)
    requires
        forall|i: int| 0 <= i < bytes.len() ==> #[trigger] bytes[i] < 128,
    ensures
        encode_utf8(as_text(bytes)) == bytes,
{
    let s = as_text(bytes);
    assert(is_ascii_chars(s)) by {
        assert forall|i: int| 0 <= i < s.len() implies '\0' <= #[trigger] s[i] <= '\u{7f}' by {
            assert(bytes[i] < 128);
            small_bytes_are_chars(bytes[i]);
        }
    }
    is_ascii_chars_encode_utf8(s);
    assert forall|i: int| 0 <= i < bytes.len() implies #[trigger] encode_utf8(s)[i] == bytes[i] by {
        assert(bytes[i] < 128);
        small_bytes_are_chars(bytes[i]);
        assert(s[i] as u8 == encode_utf8(s)[i]);
    }
    assert(encode_utf8(s) =~= bytes);
}

proof fn small_bytes_are_chars(b: u8)
    requires
        b < 128,
    ensures
        '\0' <= (b as char) <= '\u{7f}',
        (b as char) as u8 == b,
{
}

/// The URI of a file on this machine.
pub open spec fn uri_of(host: Seq<char>, path: Seq<char>, how: Seq<Spelling>) -> Seq<char> {
    "file://"@ + host + as_text(written(encode_utf8(path), how))
}

/// No host, or this one, in any case of its letters.
pub open spec fn this_machine(host: Seq<char>) -> bool {
    host.len() == 0 || lower_text(host) == "localhost"@
}

proof fn slash_comes_first(path: Seq<char>)
    requires
        path.len() > 0,
        path[0] == '/',
    ensures
        encode_utf8(path).len() > 0,
        encode_utf8(path)[0] == 0x2f,
{
    let one = seq!['/'];
    assert(is_ascii_chars(one));
    is_ascii_chars_encode_utf8(one);
    assert(one.drop_first() =~= Seq::<char>::empty());
    reveal_with_fuel(encode_utf8, 2);
    assert(encode_utf8(one)[0] == one[0] as u8);
    assert(encode_utf8(one) =~= encode_scalar('/' as u32));
}

proof fn hosts_hold_no_slash(host: Seq<char>)
    requires
        this_machine(host),
    ensures
        !host.contains('/'),
{
    reveal_strlit("localhost");
    if host.contains('/') {
        let i = choose|i: int| 0 <= i < host.len() && host[i] == '/';
        assert(lower_text(host)[i] == lower_char('/'));
        assert(lower_char('/') == '/');
        assert(lower_text(host).len() == host.len());
        assert(host.len() == 9);
        assert("localhost"@[i] == '/');
        assert(forall|j: int| 0 <= j < 9 ==> #[trigger] "localhost"@[j] != '/');
    }
}

/// The URI of a file names that file, whatever of its path is written in digits.
pub proof fn uris_name_their_file(host: Seq<char>, path: Seq<char>, how: Seq<Spelling>)
    requires
        this_machine(host),
        usable(path),
        escaping(encode_utf8(path), how),
        ascii_only(encode_utf8(path), how),
        how.len() > 0 ==> how[0] is Plain,
    ensures
        file_of(uri_of(host, path, how)) == Some(path),
{
    let bytes = encode_utf8(path);
    let plain = written(bytes, how);
    let text = as_text(plain);
    let uri = uri_of(host, path, how);
    reveal_strlit("file://");
    slash_comes_first(path);
    writings_are_ascii(bytes, how);
    text_is_bytes(plain);
    escapes_read_back(bytes, how);
    hosts_hold_no_slash(host);
    assert(plain[0] == 0x2f);
    assert(text[0] == '/');
    assert(uri.take(7) =~= "file://"@);
    let rest = host + text;
    assert(uri.skip(7) =~= rest);
    assert(rest[host.len() as int] == '/');
    assert forall|j: int| 0 <= j < host.len() implies #[trigger] rest[j] != '/' by {
        assert(rest[j] == host[j]);
        assert(host.contains(host[j]));
    }
    first_index_unique(rest, '/', host.len() as int);
    assert(rest.take(host.len() as int) =~= host);
    assert(rest.skip(host.len() as int) =~= text);
    assert(local_part(uri) == Some(text));
    encode_utf8_valid_utf8(path);
    encode_utf8_decode_utf8(path);
}

/// A file on another machine is none that is dropped here.
pub proof fn other_machines_have_no_file(host: Seq<char>, rest: Seq<char>)
    requires
        !this_machine(host),
        !host.contains('/'),
    ensures
        file_of("file://"@ + host + seq!['/'] + rest) is None,
{
    reveal_strlit("file://");
    let uri = "file://"@ + host + seq!['/'] + rest;
    let tail = host + seq!['/'] + rest;
    assert(uri.skip(7) =~= tail);
    assert(tail[host.len() as int] == '/');
    assert forall|j: int| 0 <= j < host.len() implies #[trigger] tail[j] != '/' by {
        assert(tail[j] == host[j]);
        assert(host.contains(host[j]));
    }
    first_index_unique(tail, '/', host.len() as int);
    assert(tail.take(host.len() as int) =~= host);
}

/// The files of a list are those of its parts, one part behind the other.
pub proof fn lists_name_files_in_order(front: Seq<Seq<char>>, back: Seq<Seq<char>>)
    ensures
        files_of(front + back) == files_of(front) + files_of(back),
    decreases back.len(),
{
    let all = front + back;
    if back.len() == 0 {
        assert(all =~= front);
        assert(files_of(front) + files_of(back) =~= files_of(front));
    } else {
        lists_name_files_in_order(front, back.drop_last());
        assert(all.drop_last() =~= front + back.drop_last());
        assert(all.last() == back.last());
        if let Some(path) = named(back.last()) {
            assert((files_of(front) + files_of(back.drop_last())).push(path) =~= files_of(front)
                + files_of(back.drop_last()).push(path));
        }
    }
}

/// A line of a list names the file of its URI; a comment and an empty line name nothing.
pub proof fn lines_name_one_file(
    host: Seq<char>,
    path: Seq<char>,
    how: Seq<Spelling>,
    comment: Seq<char>,
)
    requires
        this_machine(host),
        usable(path),
        escaping(encode_utf8(path), how),
        ascii_only(encode_utf8(path), how),
        how.len() > 0 ==> how[0] is Plain,
        !white_char(uri_of(host, path, how).last()),
    ensures
        files_of(seq![uri_of(host, path, how)]) == seq![path],
        files_of(seq![seq!['#'] + comment]) == Seq::<Seq<char>>::empty(),
        files_of(seq![Seq::<char>::empty()]) == Seq::<Seq<char>>::empty(),
{
    let uri = uri_of(host, path, how);
    reveal_strlit("file://");
    uris_name_their_file(host, path, how);
    assert(uri[0] == 'f');
    trim_keeps(uri);
    assert(named(uri) == Some(path));
    let one = seq![uri];
    assert(one.drop_last() =~= Seq::<Seq<char>>::empty());
    assert(files_of(Seq::<Seq<char>>::empty()) =~= Seq::<Seq<char>>::empty());
    assert(one.last() == uri);
    assert(files_of(one) =~= seq![path]);
    let note = seq!['#'] + comment;
    comments_stay(comment);
    let two = seq![note];
    assert(two.drop_last() =~= Seq::<Seq<char>>::empty());
    let three = seq![Seq::<char>::empty()];
    assert(three.drop_last() =~= Seq::<Seq<char>>::empty());
}

proof fn comments_stay(comment: Seq<char>)
    ensures
        named(seq!['#'] + comment) is None,
{
    let s = seq!['#'] + comment;
    crate::text::trim_end_facts(s);
    assert(crate::text::trim_start(s) == s);
    if trim_both(s).len() > 0 {
        assert(trim_both(s)[0] == s[0]);
    }
}

} // verus!
