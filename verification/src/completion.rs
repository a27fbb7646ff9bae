//! Shell completions: what is changed in the scripts that are generated.

use vstd::prelude::*;
use vstd::slice::slice_subrange;

use crate::text::{chars_at, chars_contain, chars_of, find_chars, text_at, text_contains, text_from};

verus! {

/// `s` from `i` on with every occurrence of `from` replaced, the first ones
/// first where they overlap.
pub open spec fn replaced_from(s: Seq<char>, from: Seq<char>, to: Seq<char>, i: int) -> Seq<char>
    decreases s.len() - i,
{
    if i < 0 || i >= s.len() {
        Seq::empty()
    } else if from.len() > 0 && text_at(s, from, i) {
        to + replaced_from(s, from, to, i + from.len())
    } else {
        seq![s[i]] + replaced_from(s, from, to, i + 1)
    }
}

pub open spec fn replaced(s: Seq<char>, from: Seq<char>, to: Seq<char>) -> Seq<char> {
    replaced_from(s, from, to, 0)
}

fn append_chars(out: &mut Vec<char>, part: &[char])
    ensures
        final(out)@ == old(out)@ + part@,
{
    let ghost before = out@;
    out.extend_from_slice(part);
    assert(out@ =~= before + part@);
}

fn replace_all(text: &[char], from: &[char], to: &[char]) -> (r: Vec<char>)
    requires
        from@.len() > 0,
    ensures
        r@ == replaced(text@, from@, to@),
{
    let ghost s = text@;
    let len = text.len();
    let mut out: Vec<char> = Vec::new();
    let mut i: usize = 0;
    assert(out@ + replaced_from(s, from@, to@, 0) =~= replaced(s, from@, to@));
    while i < len
        invariant
            s == text@,
            len == s.len(),
            i <= len,
            from@.len() > 0,
            out@ + replaced_from(s, from@, to@, i as int) == replaced(s, from@, to@),
        decreases len - i,
    {
        let ghost before = out@;
        if chars_at(text, from, i) {
            append_chars(&mut out, to);
            assert(out@ + replaced_from(s, from@, to@, i + from@.len()) =~= before + (to@
                + replaced_from(s, from@, to@, i + from@.len())));
            i = i + from.len();
        } else {
            out.push(text[i]);
            assert(out@ + replaced_from(s, from@, to@, i + 1) =~= before + (seq![s[i as int]]
                + replaced_from(s, from@, to@, i + 1)));
            i = i + 1;
        }
    }
    assert(out@ =~= out@ + Seq::<char>::empty());
    out
}

/// The helper that keeps candidates with spaces whole.
pub const BASH_SAFE_COMPGEN_HELPER: &'static str = "_prismtty_compgen() {\n    local candidate\n    COMPREPLY=()\n    while IFS= read -r candidate; do\n        COMPREPLY+=(\"${candidate}\")\n    done < <(compgen \"$@\")\n}\n\n";

/// The completion of words and that of file names through the helper.
pub open spec fn guarded(generated: Seq<char>) -> Seq<char> {
    replaced(
        replaced(
            generated,
            "COMPREPLY=( $(compgen -W \"${opts}\" -- \"${cur}\") )"@,
            "_prismtty_compgen -W \"${opts}\" -- \"${cur}\""@,
        ),
        "COMPREPLY=($(compgen -f \"${cur}\"))"@,
        "_prismtty_compgen -f -- \"${cur}\""@,
    )
}

/// Whether a script still splits candidates at spaces.
pub open spec fn splits_candidates(script: Seq<char>) -> bool {
    text_contains(script, "COMPREPLY=( $(compgen"@) || text_contains(
        script,
        "COMPREPLY=($(compgen"@,
    )
}

/// A Bash completion script in which candidates with spaces stay whole, or
/// nothing where the generated script is not of the form that is known.
pub fn harden_bash_filename_completion(generated: &str) -> (r: Option<String>)
    ensures
        match r {
            Some(script) => !splits_candidates(guarded(generated@)) && script@
                == BASH_SAFE_COMPGEN_HELPER@ + guarded(generated@),
            None => splits_candidates(guarded(generated@)),
        },
{
    let words = chars_of("COMPREPLY=( $(compgen -W \"${opts}\" -- \"${cur}\") )");
    let files = chars_of("COMPREPLY=($(compgen -f \"${cur}\"))");
    proof {
        reveal_strlit("COMPREPLY=( $(compgen -W \"${opts}\" -- \"${cur}\") )");
        reveal_strlit("COMPREPLY=($(compgen -f \"${cur}\"))");
    }
    let text = replace_all(
        replace_all(
            chars_of(generated).as_slice(),
            words.as_slice(),
            chars_of("_prismtty_compgen -W \"${opts}\" -- \"${cur}\"").as_slice(),
        ).as_slice(),
        files.as_slice(),
        chars_of("_prismtty_compgen -f -- \"${cur}\"").as_slice(),
    );
    if chars_contain(text.as_slice(), chars_of("COMPREPLY=( $(compgen").as_slice())
        || chars_contain(text.as_slice(), chars_of("COMPREPLY=($(compgen").as_slice()) {
        return None;
    }
    let mut script = String::from_str(BASH_SAFE_COMPGEN_HELPER);
    let body = text_from(text.as_slice());
    script.append(body.as_str());
    Some(script)
}

/// A Zsh completion script that serves all names of the program, or nothing
/// where the generated script is not of the form that is known.
pub fn name_zsh_aliases(generated: &str) -> (r: Option<String>)
    ensures
        match r {
            Some(script) => exists|at: int| #[trigger]
                text_at(generated@, "#compdef prismtty\n"@, at) && (forall|k: int|
                    0 <= k < at ==> !#[trigger] text_at(generated@, "#compdef prismtty\n"@, k))
                    && script@ == generated@.subrange(0, at) + "#compdef prismtty ptty ct\n"@
                    + generated@.subrange(at + "#compdef prismtty\n"@.len(), generated@.len() as int),
            None => !text_contains(generated@, "#compdef prismtty\n"@),
        },
{
    let text = chars_of(generated);
    let len = text.len();
    let line = chars_of("#compdef prismtty\n");
    match find_chars(text.as_slice(), line.as_slice(), 0) {
        Some(at) => {
            let end = at + line.len();
            let mut script = text_from(slice_subrange(text.as_slice(), 0, at));
            script.append("#compdef prismtty ptty ct\n");
            let rest = text_from(slice_subrange(text.as_slice(), end, len));
            script.append(rest.as_str());
            Some(script)
        },
        None => None,
    }
}

} // verus!
