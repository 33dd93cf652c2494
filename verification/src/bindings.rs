//! The notation for key bindings: a list of bindings separated by commas,
//! each a key and its modifiers joined by `|`, as in `CTRL | a, b`.

use vstd::prelude::*;
use vstd::string::{StrSliceExecFns, StringExecFns};
use crate::keys::{spells, SpecialKey};

verus! {

/// The bit of the control key.
pub const CTRL: u32 = 1;

/// The bit of the shift key.
pub const SHIFT: u32 = 1 << 1;

/// The bit of the alt key.
pub const ALT: u32 = 1 << 2;

/// The bit of the meta key.
pub const META: u32 = 1 << 3;

/// Whether `c` is white space, as `char::is_whitespace` says.
pub uninterp spec fn white_space(c: char) -> bool;

/// `char::is_whitespace` depends on the character alone.
pub assume_specification[ char::is_whitespace ](c: char) -> (b: bool)
    ensures
        b == white_space(c),
;

/// The number of characters in front of the first `sep` of `s`, or the
/// length of `s` if it has none.
pub open spec fn until(s: Seq<char>, sep: char) -> nat
    decreases s.len(),
{
    if s.len() == 0 || s[0] == sep {
        0
    } else {
        1 + until(s.drop_first(), sep)
    }
}

/// The parts into which the character `sep` cuts `s`.
pub open spec fn split_on(s: Seq<char>, sep: char) -> Seq<Seq<char>>
    decreases s.len(),
{
    let n = until(s, sep) as int;
    if n >= s.len() {
        seq![s]
    } else {
        seq![s.take(n)] + split_on(s.skip(n + 1), sep)
    }
}

/// `s` without the white space at its start.
pub open spec fn trimmed_start(s: Seq<char>) -> Seq<char>
    decreases s.len(),
{
    if s.len() > 0 && white_space(s[0]) {
        trimmed_start(s.drop_first())
    } else {
        s
    }
}

/// `s` without the white space at its end.
pub open spec fn trimmed_end(s: Seq<char>) -> Seq<char>
    decreases s.len(),
{
    if s.len() > 0 && white_space(s.last()) {
        trimmed_end(s.drop_last())
    } else {
        s
    }
}

/// `s` without the white space at its start and at its end.
pub open spec fn trimmed(s: Seq<char>) -> Seq<char> {
    trimmed_end(trimmed_start(s))
}

/// The bit of the modifier that `name` names, or 0 if it names none.
pub open spec fn modifier_of(name: Seq<char>) -> u32 {
    if name == "CTRL"@ {
        CTRL
    } else if name == "SHIFT"@ {
        SHIFT
    } else if name == "ALT"@ {
        ALT
    } else if name == "META"@ {
        META
    } else {
        0
    }
}

/// The text of the key that `name` names: that of a special key for its name
/// in capitals, and `name` itself otherwise.
pub open spec fn key_of(name: Seq<char>) -> Seq<char> {
    if name == "BACKSPACE"@ {
        SpecialKey::Backspace.chars()
    } else if name == "ESCAPE"@ {
        SpecialKey::Escape.chars()
    } else if name == "RETURN"@ {
        SpecialKey::Return.chars()
    } else if name == "LEFT"@ {
        SpecialKey::Left.chars()
    } else if name == "RIGHT"@ {
        SpecialKey::Right.chars()
    } else if name == "UP"@ {
        SpecialKey::Up.chars()
    } else if name == "DOWN"@ {
        SpecialKey::Down.chars()
    } else {
        name
    }
}

/// The key of a binding with the given components: the key that the last
/// component that names no modifier names, and `?` where there is none.
pub open spec fn binding_key(components: Seq<Seq<char>>) -> Seq<char>
    decreases components.len(),
{
    if components.len() == 0 {
        "?"@
    } else if modifier_of(trimmed(components.last())) != 0 {
        binding_key(components.drop_last())
    } else {
        key_of(trimmed(components.last()))
    }
}

/// The modifier bits of a binding with the given components: the bits of
/// all the modifiers that its components name.
pub open spec fn binding_modifs(components: Seq<Seq<char>>) -> u32
    decreases components.len(),
{
    if components.len() == 0 {
        0
    } else {
        binding_modifs(components.drop_last()) | modifier_of(trimmed(components.last()))
    }
}

/// The keys of the given bindings, one after the other.
pub open spec fn keys_of(bindings: Seq<Seq<char>>) -> Seq<char>
    decreases bindings.len(),
{
    if bindings.len() == 0 {
        Seq::empty()
    } else {
        keys_of(bindings.drop_last()) + binding_key(split_on(trimmed(bindings.last()), '|'))
    }
}

/// The modifier bits of the given bindings, binding by binding.
pub open spec fn modifs_of(bindings: Seq<Seq<char>>) -> Seq<u32>
    decreases bindings.len(),
{
    if bindings.len() == 0 {
        Seq::empty()
    } else {
        modifs_of(bindings.drop_last()).push(
            binding_modifs(split_on(trimmed(bindings.last()), '|')),
        )
    }
}

/// `until` stops at the first `sep` and not earlier.
proof fn lemma_until(s: Seq<char>, sep: char, n: int)
    requires
        0 <= n <= s.len(),
        forall|j: int| 0 <= j < n ==> s[j] != sep,
        n == s.len() || s[n] == sep,
    ensures
        until(s, sep) == n,
    decreases n,
{
    if n > 0 {
        let rest = s.drop_first();
        assert forall|j: int| 0 <= j < n - 1 implies rest[j] != sep by {
            assert(rest[j] == s[j + 1]);
        }
        lemma_until(rest, sep, n - 1);
    }
}

/// The parts into which `sep` cuts `s`.
pub fn split(s: &str, sep: char) -> (parts: Vec<&str>)
    ensures
        parts@.len() == split_on(s@, sep).len(),
        forall|i: int| 0 <= i < parts@.len() ==> (#[trigger] parts@[i])@ == split_on(s@, sep)[i],
{
    let length = s.unicode_len();
    let mut parts: Vec<&str> = Vec::new();
    let mut start: usize = 0;
    let ghost mut done: Seq<Seq<char>> = Seq::empty();
    proof {
        assert(s@.skip(0) =~= s@);
    }
    loop
        invariant
            length == s@.len(),
            start <= length,
            parts@.len() == done.len(),
            forall|i: int| 0 <= i < parts@.len() ==> (#[trigger] parts@[i])@ == done[i],
            split_on(s@, sep) == done + split_on(s@.skip(start as int), sep),
        decreases length - start,
    {
        let mut end: usize = start;
        while end < length && s.get_char(end) != sep
            invariant
                length == s@.len(),
                start <= end <= length,
                forall|j: int| start <= j < end ==> s@[j] != sep,
            decreases length - end,
        {
            end += 1;
        }
        let ghost rest = s@.skip(start as int);
        proof {
            lemma_until(rest, sep, end - start);
            assert(rest.take(end - start) =~= s@.subrange(start as int, end as int));
        }
        parts.push(s.substring_char(start, end));
        if end == length {
            proof {
                assert(rest.take(end - start) =~= rest);
                assert(done + split_on(rest, sep) =~= done.push(rest));
            }
            return parts;
        }
        proof {
            assert(rest.skip(end - start + 1) =~= s@.skip(end + 1));
            assert(done + split_on(rest, sep) =~= done.push(rest.take(end - start)) + split_on(
                s@.skip(end + 1),
                sep,
            ));
            done = done.push(rest.take(end - start));
        }
        start = end + 1;
    }
}

/// `s` without the white space at its start and at its end.
pub fn trim(s: &str) -> (inner: &str)
    ensures
        inner@ == trimmed(s@),
{
    let length = s.unicode_len();
    let mut start: usize = 0;
    proof {
        assert(s@.skip(0) =~= s@);
    }
    while start < length && s.get_char(start).is_whitespace()
        invariant
            length == s@.len(),
            start <= length,
            trimmed_start(s@) == trimmed_start(s@.skip(start as int)),
        decreases length - start,
    {
        proof {
            assert(s@.skip(start as int).drop_first() =~= s@.skip(start + 1));
        }
        start += 1;
    }
    let ghost front = s@.skip(start as int);
    assert(trimmed_start(s@) == front);
    let mut end: usize = length;
    proof {
        assert(front.take(end - start) =~= front);
    }
    while end > start && s.get_char(end - 1).is_whitespace()
        invariant
            length == s@.len(),
            start <= end <= length,
            front == s@.skip(start as int),
            trimmed_end(front) == trimmed_end(front.take(end - start)),
        decreases end,
    {
        proof {
            assert(front.take(end - start).drop_last() =~= front.take(end - start - 1));
            assert(front.take(end - start).last() == s@[end - 1]);
        }
        end -= 1;
    }
    proof {
        let inner = front.take(end - start);
        if end > start {
            assert(inner.last() == s@[end - 1]);
        }
        assert(trimmed_end(inner) == inner);
        assert(inner =~= s@.subrange(start as int, end as int));
    }
    s.substring_char(start, end)
}

/// The bit of the modifier that `name` names, or 0 if it names none.
pub fn modifier(name: &str) -> (bit: u32)
    ensures
        bit == modifier_of(name@),
{
    if spells(name, "CTRL") {
        CTRL
    } else if spells(name, "SHIFT") {
        SHIFT
    } else if spells(name, "ALT") {
        ALT
    } else if spells(name, "META") {
        META
    } else {
        0
    }
}

/// The text of the key that `name` names.
pub fn key<'a>(name: &'a str) -> (text: &'a str)
    ensures
        text@ == key_of(name@),
{
    if spells(name, "BACKSPACE") {
        SpecialKey::Backspace.text()
    } else if spells(name, "ESCAPE") {
        SpecialKey::Escape.text()
    } else if spells(name, "RETURN") {
        SpecialKey::Return.text()
    } else if spells(name, "LEFT") {
        SpecialKey::Left.text()
    } else if spells(name, "RIGHT") {
        SpecialKey::Right.text()
    } else if spells(name, "UP") {
        SpecialKey::Up.text()
    } else if spells(name, "DOWN") {
        SpecialKey::Down.text()
    } else {
        name
    }
}

/// Reads a list of bindings: the keys of the bindings in a row, and the
/// modifier bits of each binding.
pub fn make_binding(input: &str) -> (binding: (String, Vec<u32>))
    ensures
        binding.0@ == keys_of(split_on(input@, ',')),
        binding.1@ == modifs_of(split_on(input@, ',')),
{
    let bindings = split(input, ',');
    let ghost all = split_on(input@, ',');
    let mut keys = String::new();
    let mut modifs: Vec<u32> = Vec::new();
    let mut i: usize = 0;
    proof {
        assert(all.take(0) =~= Seq::<Seq<char>>::empty());
    }
    while i < bindings.len()
        invariant
            i <= bindings@.len(),
            bindings@.len() == all.len(),
            forall|j: int| 0 <= j < bindings@.len() ==> (#[trigger] bindings@[j])@ == all[j],
            keys@ == keys_of(all.take(i as int)),
            modifs@ == modifs_of(all.take(i as int)),
        decreases bindings@.len() - i,
    {
        let components = split(trim(bindings[i]), '|');
        let ghost named = split_on(trimmed(all[i as int]), '|');
        let mut found = "?";
        let mut modif: u32 = 0;
        let mut j: usize = 0;
        proof {
            assert(named.take(0) =~= Seq::<Seq<char>>::empty());
        }
        while j < components.len()
            invariant
                j <= components@.len(),
                components@.len() == named.len(),
                forall|n: int|
                    0 <= n < components@.len() ==> (#[trigger] components@[n])@ == named[n],
                found@ == binding_key(named.take(j as int)),
                modif == binding_modifs(named.take(j as int)),
            decreases components@.len() - j,
        {
            let component = trim(components[j]);
            let bit = modifier(component);
            proof {
                assert(named.take(j + 1).drop_last() =~= named.take(j as int));
                assert(named.take(j + 1).last() == named[j as int]);
                assert(modif | 0 == modif) by (bit_vector);
            }
            if bit != 0 {
                modif = modif | bit;
            } else {
                found = key(component);
            }
            j += 1;
        }
        proof {
            assert(named.take(j as int) =~= named);
            assert(all.take(i + 1).drop_last() =~= all.take(i as int));
            assert(all.take(i + 1).last() == all[i as int]);
        }
        keys.append(found);
        modifs.push(modif);
        i += 1;
    }
    proof {
        assert(all.take(i as int) =~= all);
    }
    (keys, modifs)
}

} // verus!
