//! Rewriting of animation-name tokens: a style fragment may refer to an
//! animation declared elsewhere as `##name##`, and every such token is
//! replaced by the scoped name that was registered for it.

use vstd::prelude::*;
use vstd::string::StringExecFns;
use crate::scan::Cursor;
use crate::text::find_delim;
use crate::text::lemma_find_delim_bounds;
use crate::text::push_char;
use crate::text::str_eq;

verus! {

/// A registered animation: its source name and its scoped form.
pub struct RegisteredAnimationName {
    pub animation_name: String,
    pub animation_name_with_scoped_id: String,
}

/// The views of a sequence of registered names.
pub open spec fn anim_views(v: Seq<RegisteredAnimationName>) -> Seq<(Seq<char>, Seq<char>)> {
    v.map_values(
        |r: RegisteredAnimationName| (r.animation_name@, r.animation_name_with_scoped_id@),
    )
}

/// The scoped form of the first registered entry named `n`.
pub open spec fn find_anim(names: Seq<(Seq<char>, Seq<char>)>, n: Seq<char>) -> Option<Seq<char>>
    decreases names.len(),
{
    if names.len() == 0 {
        None
    } else if names[0].0 == n {
        Some(names[0].1)
    } else {
        find_anim(names.drop_first(), n)
    }
}

/// The diagnostic raised when a `##name##` token is malformed.
pub open spec fn msg_token_expected() -> Seq<char> {
    "`##<animation_name>##` is expected"@
}

/// The diagnostic raised for a token whose name was never registered.
pub open spec fn msg_unknown_name(n: Seq<char>) -> Seq<char> {
    "animation name is not defined in `keyframe!` declaration: `##"@ + n + "##`"@
}

/// What a rewrite yields: the rewritten text, or a diagnostic.
pub enum RepOut {
    Done(Seq<char>),
    Failed(Seq<char>),
}

/// One step of the rewrite: `##name##` becomes the scoped form of `name`;
/// a single `#` passes through; a token without its closing `##`, or with
/// an unregistered name, fails.
pub open spec fn rep_go(
    names: Seq<(Seq<char>, Seq<char>)>,
    acc: Seq<char>,
    s: Seq<char>,
) -> RepOut
    decreases s.len(),
    via rep_go_dec
{
    if s.len() == 0 {
        RepOut::Done(acc)
    } else if s[0] == '#' {
        if s.len() >= 2 && s[1] == '#' {
            let rest = s.skip(2);
            match find_delim(rest, seq!['#'], 0) {
                None => RepOut::Failed(msg_token_expected()),
                Some(j) => {
                    let name = rest.subrange(0, j);
                    match find_anim(names, name) {
                        None => RepOut::Failed(msg_unknown_name(name)),
                        Some(withid) => if j + 2 <= rest.len() && rest[j + 1] == '#' {
                            rep_go(names, acc + withid, rest.skip(j + 2))
                        } else {
                            RepOut::Failed(msg_token_expected())
                        },
                    }
                },
            }
        } else {
            rep_go(names, acc.push('#'), s.drop_first())
        }
    } else {
        rep_go(names, acc.push(s[0]), s.drop_first())
    }
}

#[via_fn]
proof fn rep_go_dec(names: Seq<(Seq<char>, Seq<char>)>, acc: Seq<char>, s: Seq<char>) {
    if s.len() >= 2 {
        lemma_find_delim_bounds(s.skip(2), seq!['#'], 0);
    }
}

/// The scoped form registered for `name`, when there is one.
fn find_registered(animation_names: &Vec<RegisteredAnimationName>, name: &str) -> (r: Option<
    String,
>)
    ensures
        ({
            match find_anim(anim_views(animation_names@), name@) {
                Some(w) => r matches Some(s) && s@ == w,
                None => r is None,
            }
        }),
{
    let ghost nv = anim_views(animation_names@);
    let mut i: usize = 0;
    proof {
        assert(nv.skip(0) =~= nv);
    }
    while i < animation_names.len()
        invariant
            i <= animation_names@.len(),
            nv == anim_views(animation_names@),
            nv.len() == animation_names@.len(),
            find_anim(nv, name@) == find_anim(nv.skip(i as int), name@),
        decreases animation_names@.len() - i,
    {
        proof {
            assert(nv.skip(i as int)[0] == nv[i as int]);
            assert(nv.skip(i as int).drop_first() =~= nv.skip(i as int + 1));
        }
        if str_eq(animation_names[i].animation_name.as_str(), name) {
            return Some(animation_names[i].animation_name_with_scoped_id.clone());
        }
        i = i + 1;
    }
    proof {
        assert(nv.skip(nv.len() as int) =~= Seq::<(Seq<char>, Seq<char>)>::empty());
    }
    None
}

/// Replaces every `##name##` token of `code` by the scoped form registered
/// for `name`, as [`rep_go`] describes; any other text, a lone `#`
/// included, passes through unchanged.
pub fn replace_animation_name(
    code: String,
    animation_names: &Vec<RegisteredAnimationName>,
) -> (r: Result<String, String>)
    ensures
        ({
            match rep_go(anim_views(animation_names@), Seq::<char>::empty(), code@) {
                RepOut::Done(t) => r matches Ok(out) && out@ == t,
                RepOut::Failed(m) => r matches Err(e) && e@ == m,
            }
        }),
{
    let ghost nv = anim_views(animation_names@);
    let mut cursor = Cursor::new(code.as_str());
    let mut out = String::new();
    loop
        invariant
            cursor.wf(),
            nv == anim_views(animation_names@),
            rep_go(nv, Seq::<char>::empty(), code@) == rep_go(nv, out@, cursor.remaining()),
        decreases cursor.remaining().len(),
    {
        let ghost rem_i = cursor.remaining();
        let ghost out0 = out@;
        if cursor.is_empty() {
            return Ok(out);
        }
        if cursor.peek('#') {
            let _ = cursor.take('#');
            if cursor.peek('#') {
                let _ = cursor.take('#');
                let ghost rest = rem_i.skip(2);
                proof {
                    assert(rem_i.drop_first().drop_first() =~= rest);
                    lemma_find_delim_bounds(rest, seq!['#'], 0);
                }
                let delims: [char; 1] = ['#'];
                proof {
                    assert(delims@ =~= seq!['#']);
                }
                let name = match cursor.take_until(&delims) {
                    Ok(p) => p.0,
                    Err(_) => {
                        return Err(String::from_str("`##<animation_name>##` is expected"));
                    },
                };
                match find_registered(animation_names, name.as_str()) {
                    Some(withid) => {
                        out.append(withid.as_str());
                    },
                    None => {
                        let mut msg = String::from_str(
                            "animation name is not defined in `keyframe!` declaration: `##",
                        );
                        msg.append(name.as_str());
                        msg.append("##`");
                        proof {
                            assert(msg@ =~= msg_unknown_name(name@));
                        }
                        return Err(msg);
                    },
                }
                match cursor.take('#') {
                    Some(_) => {},
                    None => {
                        proof {
                            assert(false);
                        }
                        return Err(String::from_str("`##<animation_name>##` is expected"));
                    },
                }
                match cursor.take('#') {
                    Some(_) => {},
                    None => {
                        return Err(String::from_str("`##<animation_name>##` is expected"));
                    },
                }
                proof {
                    if let Some(j) = find_delim(rest, seq!['#'], 0) {
                        assert(rest.skip(j).drop_first() =~= rest.skip(j + 1));
                        assert(rest.skip(j + 1).drop_first() =~= rest.skip(j + 2));
                    }
                }
            } else {
                push_char(&mut out, '#');
                proof {
                    assert(out@ =~= out0.push('#'));
                }
            }
        } else {
            let c = match cursor.next() {
                Some(c) => c,
                None => {
                    proof {
                        assert(false);
                    }
                    return Ok(out);
                },
            };
            push_char(&mut out, c);
            proof {
                assert(out@ =~= out0.push(c));
            }
        }
    }
}

} // verus!
