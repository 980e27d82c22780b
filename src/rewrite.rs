//! The rewrite key: a digest of a commit's changed lines that ignores
//! commit identity, context and whitespace, so that an amended, rebased or
//! cherry-picked commit with the same content gets the same key.

use vstd::prelude::*;

use crate::extract::{DiffLine, DiffOrigin};
use crate::text::{chars_of, is_whitespace, is_ws, string_of};

verus! {

/// Name of the algorithm that computes rewrite keys.
pub const REWRITE_KEY_ALGORITHM: &'static str = "patch-id";

/// The SHA-256 digest of the UTF-8 encoding of a text.
pub uninterp spec fn sha256_of(s: Seq<char>) -> Seq<u8>;

/// Relies on `sha2::Sha256::digest`: the 32-byte SHA-256 digest of the
/// string's UTF-8 bytes.
#[verifier::external_body]
fn sha256_digest(s: &str) -> (r: Vec<u8>)
    ensures
        r@ == sha256_of(s@),
        r@.len() == 32,
{
    <sha2::Sha256 as sha2::Digest>::digest(s.as_bytes()).to_vec()
}

/// The lowercase hexadecimal digit of a nibble.
pub open spec fn hex_digit(n: u8) -> char {
    if n < 10 {
        (48 + n) as u8 as char
    } else {
        (87 + n) as u8 as char
    }
}

/// Bytes in lowercase hexadecimal, two digits each.
pub open spec fn hex_of(b: Seq<u8>) -> Seq<char>
    decreases b.len(),
{
    if b.len() == 0 {
        Seq::empty()
    } else {
        hex_of(b.drop_last()) + seq![hex_digit(b.last() / 16), hex_digit(b.last() % 16)]
    }
}

/// Writes bytes in lowercase hexadecimal.
pub fn hex_digest(bytes: &Vec<u8>) -> (r: String)
    ensures
        r@ == hex_of(bytes@),
{
    let mut out: Vec<char> = Vec::new();
    let mut i: usize = 0;
    while i < bytes.len()
        invariant
            i <= bytes@.len(),
            out@ == hex_of(bytes@.take(i as int)),
        decreases bytes@.len() - i,
    {
        proof {
            assert(bytes@.take(i as int + 1).drop_last() =~= bytes@.take(i as int));
            assert(bytes@.take(i as int + 1).last() == bytes@[i as int]);
        }
        let b = bytes[i];
        let hi = b / 16;
        let lo = b % 16;
        out.push(if hi < 10 { (48 + hi) as char } else { (87 + hi) as char });
        out.push(if lo < 10 { (48 + lo) as char } else { (87 + lo) as char });
        i = i + 1;
        proof {
            assert(out@ =~= hex_of(bytes@.take(i as int)));
        }
    }
    proof {
        assert(bytes@.take(bytes@.len() as int) =~= bytes@);
    }
    string_of(&out)
}

/// A text without its whitespace.
pub open spec fn strip_ws(s: Seq<char>) -> Seq<char>
    decreases s.len(),
{
    if s.len() == 0 {
        Seq::empty()
    } else if is_ws(s.last()) {
        strip_ws(s.drop_last())
    } else {
        strip_ws(s.drop_last()).push(s.last())
    }
}

/// Removes every whitespace character from a line.
pub fn normalize_patch_line(line: &Vec<char>) -> (r: Vec<char>)
    ensures
        r@ == strip_ws(line@),
{
    let mut out: Vec<char> = Vec::new();
    let mut i: usize = 0;
    while i < line.len()
        invariant
            i <= line@.len(),
            out@ == strip_ws(line@.take(i as int)),
        decreases line@.len() - i,
    {
        proof {
            assert(line@.take(i as int + 1).drop_last() =~= line@.take(i as int));
            assert(line@.take(i as int + 1).last() == line@[i as int]);
        }
        if !is_whitespace(line[i]) {
            out.push(line[i]);
        }
        i = i + 1;
    }
    proof {
        assert(line@.take(line@.len() as int) =~= line@);
    }
    out
}

/// A line without the `\n` and `\r` characters at its end.
pub open spec fn strip_newlines(s: Seq<char>) -> Seq<char>
    decreases s.len(),
{
    if s.len() > 0 && (s.last() == '\n' || s.last() == '\r') {
        strip_newlines(s.drop_last())
    } else {
        s
    }
}

/// Whether a line is a diff pseudo-header (`+++ ` or `--- `).
pub open spec fn is_pseudo_header(s: Seq<char>) -> bool {
    s.len() >= 4 && (s[0] == '+' || s[0] == '-') && s[1] == s[0] && s[2] == s[0] && s[3] == ' '
}

/// What one diff event adds to the digest input: for an added or removed
/// content line, its file path, a `+`/`-` marker and the line without
/// whitespace, each followed by `\n`; nothing for other events.
pub open spec fn event_input(line: DiffLine) -> Seq<char> {
    let t = strip_newlines(line.content@);
    let path = match line.path {
        Some(p) => p@,
        None => "unknown"@,
    };
    let marker = if line.origin == DiffOrigin::Addition {
        '+'
    } else {
        '-'
    };
    if line.origin == DiffOrigin::Other || is_pseudo_header(t) {
        Seq::empty()
    } else {
        path + seq!['\n', marker, '\n'] + strip_ws(t) + seq!['\n']
    }
}

/// The digest input of a sequence of diff events.
pub open spec fn events_input(lines: Seq<DiffLine>) -> Seq<char>
    decreases lines.len(),
{
    if lines.len() == 0 {
        Seq::empty()
    } else {
        events_input(lines.drop_last()) + event_input(lines.last())
    }
}

/// The digest input of a commit: that of its diff events, or the commit's
/// tree id when they hold no content line.
pub open spec fn rewrite_input(lines: Seq<DiffLine>, tree_id: Seq<char>) -> Seq<char> {
    if events_input(lines).len() == 0 {
        tree_id
    } else {
        events_input(lines)
    }
}

fn push_all_chars(out: &mut Vec<char>, s: &Vec<char>)
    ensures
        final(out)@ == old(out)@ + s@,
{
    let mut k: usize = 0;
    while k < s.len()
        invariant
            k <= s@.len(),
            out@ == old(out)@ + s@.take(k as int),
        decreases s@.len() - k,
    {
        out.push(s[k]);
        k = k + 1;
        proof {
            assert(s@.take(k as int) =~= s@.take(k - 1).push(s@[k - 1]));
            assert(out@ =~= old(out)@ + s@.take(k as int));
        }
    }
    proof {
        assert(s@.take(s@.len() as int) =~= s@);
    }
}

/// The digest input of a commit, from its diff events and its tree id.
pub fn rewrite_key_input(lines: &Vec<DiffLine>, tree_id: &str) -> (r: String)
    ensures
        r@ == rewrite_input(lines@, tree_id@),
{
    let mut out: Vec<char> = Vec::new();
    let mut i: usize = 0;
    while i < lines.len()
        invariant
            i <= lines@.len(),
            out@ == events_input(lines@.take(i as int)),
        decreases lines@.len() - i,
    {
        proof {
            assert(lines@.take(i as int + 1).drop_last() =~= lines@.take(i as int));
            assert(lines@.take(i as int + 1).last() == lines@[i as int]);
        }
        let line = &lines[i];
        let ghost before = out@;
        if line.origin != DiffOrigin::Other {
            let content = chars_of(line.content.as_str());
            let mut n = content.len();
            proof {
                assert(content@.take(content@.len() as int) =~= content@);
            }
            while n > 0 && (content[n - 1] == '\n' || content[n - 1] == '\r')
                invariant
                    n <= content@.len(),
                    strip_newlines(content@) == strip_newlines(content@.take(n as int)),
                decreases n,
            {
                proof {
                    assert(content@.take(n as int).drop_last() =~= content@.take(n - 1));
                }
                n = n - 1;
            }
            let mut t: Vec<char> = Vec::new();
            let mut k: usize = 0;
            while k < n
                invariant
                    k <= n <= content@.len(),
                    t@ == content@.take(k as int),
                decreases n - k,
            {
                t.push(content[k]);
                k = k + 1;
                proof {
                    assert(t@ =~= content@.take(k as int));
                }
            }
            proof {
                assert(content@.take(content@.len() as int) =~= content@);
                if n > 0 {
                    assert(content@.take(n as int).last() == content@[n - 1]);
                }
                assert(strip_newlines(content@) == t@);
            }
            let header = t.len() >= 4 && (t[0] == '+' || t[0] == '-') && t[1] == t[0] && t[2] == t[0] && t[3] == ' ';
            if !header {
                match &line.path {
                    Some(p) => push_all_chars(&mut out, &chars_of(p.as_str())),
                    None => push_all_chars(&mut out, &chars_of("unknown")),
                }
                out.push('\n');
                out.push(if line.origin == DiffOrigin::Addition { '+' } else { '-' });
                out.push('\n');
                push_all_chars(&mut out, &normalize_patch_line(&t));
                out.push('\n');
            }
        }
        proof {
            assert(out@ =~= before + event_input(lines@[i as int]));
        }
        i = i + 1;
    }
    proof {
        assert(lines@.take(lines@.len() as int) =~= lines@);
    }
    if out.len() == 0 {
        tree_id.to_owned()
    } else {
        string_of(&out)
    }
}

/// The rewrite key of a commit: the hexadecimal SHA-256 digest of its digest
/// input.
pub fn compute_rewrite_key(lines: &Vec<DiffLine>, tree_id: &str) -> (key: String)
    ensures
        key@ == hex_of(sha256_of(rewrite_input(lines@, tree_id@))),
        key@.len() == 64,
{
    let input = rewrite_key_input(lines, tree_id);
    let digest = sha256_digest(input.as_str());
    proof {
        lemma_hex_len(digest@);
    }
    hex_digest(&digest)
}

/// The hexadecimal SHA-256 digest of a note's text.
pub fn compute_note_hash(message: &str) -> (hash: String)
    ensures
        hash@ == hex_of(sha256_of(message@)),
{
    hex_digest(&sha256_digest(message))
}

proof fn lemma_hex_len(b: Seq<u8>)
    ensures
        hex_of(b).len() == 2 * b.len(),
    decreases b.len(),
{
    if b.len() > 0 {
        lemma_hex_len(b.drop_last());
    }
}

} // verus!
