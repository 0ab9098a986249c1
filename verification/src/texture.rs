//! Texture strings: `a.png^b.png` stands for `b.png` drawn over `a.png`.
//!
//! A texture string is split at each `^`. An empty part stands for the
//! "no texture" image, a part that starts with `[` is a texture modifier,
//! which is not supported and skipped, and any other part names a texture.

use vstd::prelude::*;
use vstd::string::StrSliceExecFns;

verus! {

broadcast use vstd::string::group_string_axioms;

/// The parts of `s` between the `^` separators, as `str::split('^')` gives
/// them: one part more than there are separators.
pub open spec fn split_parts(s: Seq<char>) -> Seq<Seq<char>>
    decreases s.len(),
{
    if s.len() == 0 {
        seq![Seq::empty()]
    } else {
        let rest = split_parts(s.drop_last());
        if s.last() == '^' {
            rest.push(Seq::empty())
        } else {
            rest.update(rest.len() - 1, rest.last().push(s.last()))
        }
    }
}

/// The name of the image that stands for a missing texture.
pub open spec fn no_texture_name() -> Seq<char> {
    "no_texture.png"@
}

/// The texture that a part of a texture string names: the "no texture" image
/// for an empty part, nothing for a modifier.
pub open spec fn part_texture(part: Seq<char>) -> Option<Seq<char>> {
    if part.len() == 0 {
        Some(no_texture_name())
    } else if part[0] == '[' {
        None
    } else {
        Some(part)
    }
}

/// The textures that the first `n` parts name, in order.
pub open spec fn part_textures(parts: Seq<Seq<char>>, n: int) -> Seq<Seq<char>>
    decreases n,
{
    if n <= 0 {
        Seq::empty()
    } else {
        part_textures(parts, n - 1) + match part_texture(parts[n - 1]) {
            Some(name) => seq![name],
            None => Seq::empty(),
        }
    }
}

/// The textures that a texture string names, bottom first.
pub open spec fn layer_names(s: Seq<char>) -> Seq<Seq<char>> {
    part_textures(split_parts(s), split_parts(s).len() as int)
}

/// Calls `String::push`, which appends one character.
#[verifier::external_body]
fn push_char(s: &mut String, c: char)
    ensures
        final(s)@ == old(s)@.push(c),
{
    s.push(c);
}

/// Splits a texture string at each `^`.
pub fn split_texture_string(s: &str) -> (parts: Vec<String>)
    ensures
        parts@.len() == split_parts(s@).len(),
        forall|i: int| 0 <= i < parts@.len() ==> #[trigger] parts@[i]@ == split_parts(s@)[i],
{
    let ghost full = s@;
    let mut parts: Vec<String> = Vec::new();
    let mut cur = String::new();
    assert(full.take(full.len() as int) =~= full);
    for c in it: s.chars()
        invariant
            it.seq() == full,
            full.take(full.len() as int) == full,
            parts@.len() + 1 == split_parts(full.take(it.index())).len(),
            forall|i: int| 0 <= i < parts@.len() ==> #[trigger] parts@[i]@ == split_parts(full.take(it.index()))[i],
            cur@ == split_parts(full.take(it.index())).last(),
        ensures
            parts@.len() + 1 == split_parts(full).len(),
            forall|i: int| 0 <= i < parts@.len() ==> #[trigger] parts@[i]@ == split_parts(full)[i],
            cur@ == split_parts(full).last(),
    {
        let ghost prefix = full.take(it.index());
        proof {
            assert(full.take(it.index() + 1).drop_last() =~= prefix);
            assert(full.take(it.index() + 1).last() == c);
        }
        if c == '^' {
            let mut done = String::new();
            std::mem::swap(&mut cur, &mut done);
            parts.push(done);
        } else {
            push_char(&mut cur, c);
        }
        proof {
            let next = full.take(it.index() + 1);
            assert forall|i: int| 0 <= i < parts@.len() implies #[trigger] parts@[i]@ == split_parts(next)[i] by {}
        }
    }
    parts.push(cur);
    parts
}

/// The names of the textures that a texture string draws, bottom first: the
/// "no texture" image for each empty part, the part itself for each part
/// that is no modifier.
pub fn texture_layer_names(s: &str) -> (names: Vec<String>)
    ensures
        names@.len() == layer_names(s@).len(),
        forall|i: int| 0 <= i < names@.len() ==> #[trigger] names@[i]@ == layer_names(s@)[i],
{
    let parts = split_texture_string(s);
    let ghost ps = split_parts(s@);
    let mut names: Vec<String> = Vec::new();
    let mut i: usize = 0;
    while i < parts.len()
        invariant
            0 <= i <= parts@.len(),
            parts@.len() == ps.len(),
            forall|j: int| 0 <= j < parts@.len() ==> #[trigger] parts@[j]@ == ps[j],
            names@.len() == part_textures(ps, i as int).len(),
            forall|j: int| 0 <= j < names@.len() ==> #[trigger] names@[j]@ == part_textures(ps, i as int)[j],
        decreases parts@.len() - i,
    {
        let part = parts[i].as_str();
        if part.is_empty() {
            names.push("no_texture.png".to_owned());
        } else if part.get_char(0) != '[' {
            names.push(part.to_owned());
        }
        proof {
            assert(part_textures(ps, i + 1) == part_textures(ps, i as int) + match part_texture(ps[i as int]) {
                Some(name) => seq![name],
                None => Seq::<Seq<char>>::empty(),
            });
        }
        i = i + 1;
    }
    names
}


/// A texture string always has at least one part.
proof fn lemma_split_len(s: Seq<char>)
    ensures
        split_parts(s).len() >= 1,
    decreases s.len(),
{
    if s.len() > 0 {
        lemma_split_len(s.drop_last());
    }
}

/// A string without `^` is one part.
proof fn lemma_split_whole(s: Seq<char>)
    requires
        forall|i: int| 0 <= i < s.len() ==> #[trigger] s[i] != '^',
    ensures
        split_parts(s) == seq![s],
    decreases s.len(),
{
    if s.len() > 0 {
        assert forall|i: int| 0 <= i < s.drop_last().len() implies #[trigger] s.drop_last()[i] != '^' by {
            assert(s.drop_last()[i] == s[i]);
        }
        lemma_split_whole(s.drop_last());
        assert(s[s.len() - 1] != '^');
        assert(s.drop_last().push(s.last()) =~= s);
        assert(split_parts(s) =~= seq![s]);
    } else {
        assert(s =~= Seq::<char>::empty());
    }
}

/// Joining two strings with `^` joins their parts.
proof fn lemma_split_join(x: Seq<char>, y: Seq<char>)
    ensures
        split_parts(x + seq!['^'] + y) == split_parts(x) + split_parts(y),
    decreases y.len(),
{
    let j = x + seq!['^'] + y;
    if y.len() == 0 {
        assert(j =~= x.push('^'));
        assert(j.drop_last() =~= x);
        assert(split_parts(x) + split_parts(y) =~= split_parts(x).push(Seq::empty()));
    } else {
        assert(j.drop_last() =~= x + seq!['^'] + y.drop_last());
        assert(j.last() == y.last());
        lemma_split_join(x, y.drop_last());
        lemma_split_len(y.drop_last());
        lemma_split_len(x);
        let rest = split_parts(x) + split_parts(y.drop_last());
        if y.last() == '^' {
            assert(rest.push(Seq::empty()) =~= split_parts(x) + split_parts(y.drop_last()).push(Seq::empty()));
        } else {
            let ry = split_parts(y.drop_last());
            assert(rest.update(rest.len() - 1, rest.last().push(y.last())) =~= split_parts(x) + ry.update(
                ry.len() - 1,
                ry.last().push(y.last()),
            ));
        }
    }
}

/// The first `n` parts of `p1 + p2`, for `n` within `p1`, name what those of
/// `p1` name.
proof fn lemma_part_textures_prefix(p1: Seq<Seq<char>>, p2: Seq<Seq<char>>, n: int)
    requires
        0 <= n <= p1.len(),
    ensures
        part_textures(p1 + p2, n) == part_textures(p1, n),
    decreases n,
{
    if n > 0 {
        lemma_part_textures_prefix(p1, p2, n - 1);
        assert((p1 + p2)[n - 1] == p1[n - 1]);
    }
}

/// The parts of `p1 + p2` name what those of `p1` name, then those of `p2`.
proof fn lemma_part_textures_join(p1: Seq<Seq<char>>, p2: Seq<Seq<char>>, n: int)
    requires
        0 <= n <= p2.len(),
    ensures
        part_textures(p1 + p2, p1.len() + n) == part_textures(p1, p1.len() as int) + part_textures(p2, n),
    decreases n,
{
    if n == 0 {
        lemma_part_textures_prefix(p1, p2, p1.len() as int);
        assert(part_textures(p1, p1.len() as int) + part_textures(p2, 0) =~= part_textures(p1, p1.len() as int));
    } else {
        lemma_part_textures_join(p1, p2, n - 1);
        assert((p1 + p2)[p1.len() + n - 1] == p2[n - 1]);
        let tail = match part_texture(p2[n - 1]) {
            Some(name) => seq![name],
            None => Seq::<Seq<char>>::empty(),
        };
        assert(part_textures(p1, p1.len() as int) + part_textures(p2, n - 1) + tail =~= part_textures(p1, p1.len() as int) + (
        part_textures(p2, n - 1) + tail));
    }
}

/// A texture modifier joined to a texture name with `^`, before or after
/// it, is skipped: the string names the same textures as the name alone.
pub proof fn lemma_modifier_skipped(name: Seq<char>, modifier: Seq<char>)
    requires
        name.len() > 0,
        name[0] != '[',
        forall|i: int| 0 <= i < name.len() ==> #[trigger] name[i] != '^',
        modifier.len() > 0,
        modifier[0] == '[',
        forall|i: int| 0 <= i < modifier.len() ==> #[trigger] modifier[i] != '^',
    ensures
        layer_names(name + seq!['^'] + modifier) == layer_names(name),
        layer_names(modifier + seq!['^'] + name) == layer_names(name),
        layer_names(name) == seq![name],
{
    lemma_split_whole(name);
    lemma_split_whole(modifier);
    lemma_split_join(name, modifier);
    lemma_split_join(modifier, name);
    let pn = seq![name];
    let pm = seq![modifier];
    lemma_part_textures_join(pn, pm, 1);
    lemma_part_textures_join(pm, pn, 1);
    assert(part_textures(pn, 0) =~= Seq::<Seq<char>>::empty());
    assert(part_textures(pm, 0) =~= Seq::<Seq<char>>::empty());
    assert(pn[0] == name && pm[0] == modifier);
    assert(part_texture(name) == Some(name));
    assert(part_texture(modifier) is None);
    assert(part_textures(pn, 1) =~= seq![name]);
    assert(part_textures(pm, 1) =~= Seq::<Seq<char>>::empty());
    assert(part_textures(pn, 1) + part_textures(pm, 1) =~= seq![name]);
    assert(part_textures(pm, 1) + part_textures(pn, 1) =~= seq![name]);
}

} // verus!
