use vstd::prelude::*;

verus! {

/// A character that a storage path may not hold as it is.
pub open spec fn is_unsafe_char(c: char) -> bool {
    c == ' ' || c == '"'
}

/// What a single character becomes in a storage path.
pub open spec fn sanitized_char(c: char) -> char {
    if is_unsafe_char(c) {
        '_'
    } else {
        c
    }
}

/// Every space and every double quote replaced by an underscore.
pub open spec fn sanitized(s: Seq<char>) -> Seq<char> {
    s.map_values(|c: char| sanitized_char(c))
}

/// `s` without one leading and one trailing slash, where present.
pub open spec fn strip_slashes(s: Seq<char>) -> Seq<char> {
    let t = if s.len() > 0 && s[0] == '/' {
        s.drop_first()
    } else {
        s
    };
    if t.len() > 0 && t.last() == '/' {
        t.drop_last()
    } else {
        t
    }
}

/// The storage path made of a joined path.
pub open spec fn sanitized_path(s: Seq<char>) -> Seq<char> {
    strip_slashes(sanitized(s))
}

/// Replaces every space and every double quote of `node_name` by `_`.
pub fn sanitize_node_name(node_name: &str) -> (r: String)
    ensures
        r@ == sanitized(node_name@),
{
    let n = node_name.unicode_len();
    let mut out = String::new();
    let mut start: usize = 0;
    let mut i: usize = 0;
    while i < n
        invariant
            n == node_name@.len(),
            start <= i <= n,
            out@ + node_name@.subrange(start as int, i as int) == sanitized(
                node_name@.subrange(0, i as int),
            ),
        decreases n - i,
    {
        let c = node_name.get_char(i);
        let ghost before = out@ + node_name@.subrange(start as int, i as int);
        assert(node_name@.subrange(0, i + 1) =~= node_name@.subrange(0, i as int).push(c));
        assert(sanitized(node_name@.subrange(0, i + 1)) =~= sanitized(
            node_name@.subrange(0, i as int),
        ).push(sanitized_char(c)));
        if c == ' ' || c == '"' {
            let run = node_name.substring_char(start, i);
            out.append(run);
            proof {
                reveal_strlit("_");
            }
            out.append("_");
            start = i + 1;
            i = i + 1;
            assert(out@ + node_name@.subrange(start as int, i as int) =~= before.push('_'));
        } else {
            i = i + 1;
            assert(out@ + node_name@.subrange(start as int, i as int) =~= before.push(c));
        }
    }
    let rest = node_name.substring_char(start, n);
    out.append(rest);
    proof {
        assert(node_name@.subrange(0, n as int) =~= node_name@);
    }
    out
}

/// Replaces spaces and double quotes over the whole of `path`, then drops
/// one leading and one trailing slash, where present.
pub fn sanitize_path(path: &str) -> (r: String)
    ensures
        r@ == sanitized_path(path@),
{
    let s = sanitize_node_name(path);
    let n = s.as_str().unicode_len();
    let from: usize = if n > 0 && s.as_str().get_char(0) == '/' {
        1
    } else {
        0
    };
    let to: usize = if n > from && s.as_str().get_char(n - 1) == '/' {
        n - 1
    } else {
        n
    };
    let r = String::from_str(s.as_str().substring_char(from, to));
    proof {
        let t = if n > 0 && s@[0] == '/' {
            s@.drop_first()
        } else {
            s@
        };
        assert(t =~= s@.subrange(from as int, n as int));
        if t.len() > 0 && t.last() == '/' {
            assert(t.drop_last() =~= r@);
        } else {
            assert(t =~= r@);
        }
    }
    r
}

/// Sanitizing a name a second time changes nothing.
pub proof fn lemma_sanitize_idempotent(s: Seq<char>)
    ensures
        sanitized(sanitized(s)) == sanitized(s),
{
    assert(sanitized(sanitized(s)) =~= sanitized(s));
}

/// Sanitizing distributes over concatenation.
pub proof fn lemma_sanitized_concat(a: Seq<char>, b: Seq<char>)
    ensures
        sanitized(a + b) == sanitized(a) + sanitized(b),
{
    assert(sanitized(a + b) =~= sanitized(a) + sanitized(b));
}

} // verus!
