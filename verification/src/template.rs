//! The template language: a template body is plain text with three
//! recognized placeholders, `{{ name }}` (the plugin name), `{{ dir }}`
//! (the resolved location) and `{{ file }}` (the current matched file).
//! A template that mentions `{{ file }}` is applied once per matched
//! file; any other template is applied once.

use vstd::prelude::*;
use crate::text;

verus! {

/// The characters of the plugin-name placeholder.
pub open spec fn ph_name() -> Seq<char> {
    seq!['{', '{', ' ', 'n', 'a', 'm', 'e', ' ', '}', '}']
}

/// The characters of the resolved-location placeholder.
pub open spec fn ph_dir() -> Seq<char> {
    seq!['{', '{', ' ', 'd', 'i', 'r', ' ', '}', '}']
}

/// The characters of the matched-file placeholder.
pub open spec fn ph_file() -> Seq<char> {
    seq!['{', '{', ' ', 'f', 'i', 'l', 'e', ' ', '}', '}']
}

/// Whether `t` starts with `p`.
pub open spec fn starts(t: Seq<char>, p: Seq<char>) -> bool {
    p.len() <= t.len() && t.subrange(0, p.len() as int) == p
}

/// The rendered text: each placeholder occurrence is replaced by the
/// corresponding value, scanning left to right.
pub open spec fn render_spec(t: Seq<char>, name: Seq<char>, dir: Seq<char>, file: Seq<char>) -> Seq<
    char,
>
    decreases t.len(),
{
    if starts(t, ph_name()) {
        name + render_spec(t.skip(ph_name().len() as int), name, dir, file)
    } else if starts(t, ph_dir()) {
        dir + render_spec(t.skip(ph_dir().len() as int), name, dir, file)
    } else if starts(t, ph_file()) {
        file + render_spec(t.skip(ph_file().len() as int), name, dir, file)
    } else if t.len() == 0 {
        Seq::empty()
    } else {
        seq![t[0]] + render_spec(t.skip(1), name, dir, file)
    }
}

/// Whether the template text mentions the matched-file placeholder.
pub open spec fn uses_file(t: Seq<char>) -> bool
    decreases t.len(),
{
    if t.len() == 0 {
        false
    } else if starts(t, ph_file()) {
        true
    } else {
        uses_file(t.skip(1))
    }
}

fn starts_with_at(t: &Vec<char>, i: usize, p: &Vec<char>) -> (r: bool)
    requires
        i <= t@.len(),
    ensures
        r == starts(t@.skip(i as int), p@),
{
    if t.len() - i < p.len() {
        return false;
    }
    let tlen: usize = t.len();
    let mut k: usize = 0;
    while k < p.len()
        invariant
            tlen == t@.len(),
            k <= p@.len(),
            i <= t@.len(),
            p@.len() <= t@.len() - i,
            forall|j: int| 0 <= j < k ==> t@[i + j] == p@[j],
        decreases p@.len() - k,
    {
        proof {
            assert(i + k < t@.len());
        }
        if t[i + k] != p[k] {
            proof {
                assert(t@.skip(i as int).subrange(0, p@.len() as int)[k as int] == t@[i + k]);
            }
            return false;
        }
        k = k + 1;
    }
    proof {
        assert(t@.skip(i as int).subrange(0, p@.len() as int) =~= p@);
    }
    true
}

fn ph_name_vec() -> (r: Vec<char>)
    ensures
        r@ == ph_name(),
{
    let v = text::chars_of("{{ name }}");
    proof {
        reveal_strlit("{{ name }}");
        assert(v@ =~= ph_name());
    }
    v
}

fn ph_dir_vec() -> (r: Vec<char>)
    ensures
        r@ == ph_dir(),
{
    let v = text::chars_of("{{ dir }}");
    proof {
        reveal_strlit("{{ dir }}");
        assert(v@ =~= ph_dir());
    }
    v
}

fn ph_file_vec() -> (r: Vec<char>)
    ensures
        r@ == ph_file(),
{
    let v = text::chars_of("{{ file }}");
    proof {
        reveal_strlit("{{ file }}");
        assert(v@ =~= ph_file());
    }
    v
}

/// Renders one template body against a plugin name, a resolved
/// location and one matched file.
pub fn render(template: &str, name: &str, dir: &str, file: &str) -> (r: String)
    ensures
        r@ == render_spec(template@, name@, dir@, file@),
{
    let t = text::chars_of(template);
    let pn = ph_name_vec();
    let pd = ph_dir_vec();
    let pf = ph_file_vec();
    let mut out = String::new();
    let mut i: usize = 0;
    proof {
        assert(t@.skip(0) =~= template@);
    }
    while i < t.len()
        invariant
            i <= t@.len(),
            t@ == template@,
            pn@ == ph_name(),
            pd@ == ph_dir(),
            pf@ == ph_file(),
            render_spec(template@, name@, dir@, file@) == out@ + render_spec(
                t@.skip(i as int),
                name@,
                dir@,
                file@,
            ),
        decreases t@.len() - i,
    {
        if starts_with_at(&t, i, &pn) {
            let ghost out0 = out@;
            text::append_str(&mut out, name);
            proof {
                let rest = t@.skip(i as int + 10);
                assert(t@.skip(i as int).skip(10) =~= rest);
                assert((out0 + name@) + render_spec(rest, name@, dir@, file@) =~= out0 + (name@
                    + render_spec(rest, name@, dir@, file@)));
            }
            i = i + 10;
        } else if starts_with_at(&t, i, &pd) {
            let ghost out0 = out@;
            text::append_str(&mut out, dir);
            proof {
                let rest = t@.skip(i as int + 9);
                assert(t@.skip(i as int).skip(9) =~= rest);
                assert((out0 + dir@) + render_spec(rest, name@, dir@, file@) =~= out0 + (dir@
                    + render_spec(rest, name@, dir@, file@)));
            }
            i = i + 9;
        } else if starts_with_at(&t, i, &pf) {
            let ghost out0 = out@;
            text::append_str(&mut out, file);
            proof {
                let rest = t@.skip(i as int + 10);
                assert(t@.skip(i as int).skip(10) =~= rest);
                assert((out0 + file@) + render_spec(rest, name@, dir@, file@) =~= out0 + (file@
                    + render_spec(rest, name@, dir@, file@)));
            }
            i = i + 10;
        } else {
            proof {
                assert(t@.skip(i as int)[0] == t@[i as int]);
            }
            let ghost out0 = out@;
            text::push_char(&mut out, t[i]);
            proof {
                let rest = t@.skip(i as int + 1);
                assert(t@.skip(i as int).skip(1) =~= rest);
                assert(out@ =~= out0 + seq![t@[i as int]]);
                assert((out0 + seq![t@[i as int]]) + render_spec(rest, name@, dir@, file@)
                    =~= out0 + (seq![t@[i as int]] + render_spec(rest, name@, dir@, file@)));
            }
            i = i + 1;
        }
    }
    proof {
        assert(render_spec(t@.skip(i as int), name@, dir@, file@) == Seq::<char>::empty());
        assert(out@ + Seq::<char>::empty() =~= out@);
    }
    out
}

/// Decides whether the template mentions the matched-file placeholder.
pub fn template_uses_file(template: &str) -> (r: bool)
    ensures
        r == uses_file(template@),
{
    let t = text::chars_of(template);
    let pf = ph_file_vec();
    let mut i: usize = 0;
    proof {
        assert(t@.skip(0) =~= template@);
    }
    while i < t.len()
        invariant
            i <= t@.len(),
            t@ == template@,
            pf@ == ph_file(),
            uses_file(template@) == uses_file(t@.skip(i as int)),
        decreases t@.len() - i,
    {
        if starts_with_at(&t, i, &pf) {
            return true;
        }
        proof {
            assert(t@.skip(i as int).skip(1) =~= t@.skip(i as int + 1));
        }
        i = i + 1;
    }
    false
}

} // verus!
