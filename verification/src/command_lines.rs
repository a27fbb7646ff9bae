//! Laws about command lines that ask for remote sessions: options, quotation
//! marks, and what is left to the shell.

use vstd::prelude::*;

use crate::logins::{
    bare, bare_word, lemma_after_at, lemma_bare_run, lemma_login_is_bare, lemma_more_words,
    lemma_name_is_bare, lemma_opens, lemma_target_word, lemma_two_words, opens, plain_char,
    plain_name, ssh_option_with_value, the_user_is_no_part_of_the_host,
};
use crate::remote::{
    attempt_of, brackets_start, host_of, last_takes_value, policy_of, shell_words, shell_words_from,
    skip_brackets, target_from, value_follows, without_brackets, AttemptView, ClosePolicy, Quote,
};
use crate::text::lowered;

verus! {

/// The options that take a value in the next word, for each command.
pub open spec fn option_with_value(command: Seq<char>, c: char) -> bool {
    ||| command == seq!['s', 's', 'h'] && ssh_option_with_value(c)
    ||| command == seq!['m', 'o', 's', 'h'] && c == 'p'
    ||| command == seq!['t', 'e', 'l', 'n', 'e', 't'] && c == 'l'
    ||| command == seq!['s', 'c', 'r', 'e', 'e', 'n'] && (c == 'c' || c == 'd' || c == 'm' || c
        == 'S' || c == 'T')
    ||| command == seq!['c', 'u'] && (c == 'l' || c == 's')
    ||| command == seq!['m', 'i', 'n', 'i', 'c', 'o', 'm'] && (c == 'D' || c == 'b' || c == 'c'
        || c == 't')
    ||| command == seq!['p', 'i', 'c', 'o', 'c', 'o', 'm'] && c == 'b'
}

/// The long options that take a value in the next word.
pub open spec fn long_option_with_value(command: Seq<char>, option: Seq<char>) -> bool {
    ||| command == seq!['m', 'o', 's', 'h'] && (option == "--port"@ || option == "--ssh"@)
    ||| command == seq!['p', 'i', 'c', 'o', 'c', 'o', 'm'] && (option == "--baud"@ || option
        == "--imap"@ || option == "--omap"@ || option == "--emap"@)
}

proof fn lemma_commands(command: Seq<char>, policy: ClosePolicy)
    requires
        opens(command, policy),
    ensures
        command == "ssh"@ <==> command == seq!['s', 's', 'h'],
        command == "mosh"@ <==> command == seq!['m', 'o', 's', 'h'],
        command == "telnet"@ <==> command == seq!['t', 'e', 'l', 'n', 'e', 't'],
        command == "screen"@ <==> command == seq!['s', 'c', 'r', 'e', 'e', 'n'],
        command == "cu"@ <==> command == seq!['c', 'u'],
        command == "minicom"@ <==> command == seq!['m', 'i', 'n', 'i', 'c', 'o', 'm'],
        command == "picocom"@ <==> command == seq!['p', 'i', 'c', 'o', 'c', 'o', 'm'],
{
    reveal_strlit("ssh");
    reveal_strlit("mosh");
    reveal_strlit("telnet");
    reveal_strlit("screen");
    reveal_strlit("cu");
    reveal_strlit("minicom");
    reveal_strlit("picocom");
    assert("ssh"@ =~= seq!['s', 's', 'h']);
    assert("mosh"@ =~= seq!['m', 'o', 's', 'h']);
    assert("telnet"@ =~= seq!['t', 'e', 'l', 'n', 'e', 't']);
    assert("screen"@ =~= seq!['s', 'c', 'r', 'e', 'e', 'n']);
    assert("cu"@ =~= seq!['c', 'u']);
    assert("minicom"@ =~= seq!['m', 'i', 'n', 'i', 'c', 'o', 'm']);
    assert("picocom"@ =~= seq!['p', 'i', 'c', 'o', 'c', 'o', 'm']);
}

proof fn lemma_distinct(command: Seq<char>)
    ensures
        command == seq!['s', 's', 'h'] ==> command.len() == 3,
        command == seq!['m', 'o', 's', 'h'] ==> command.len() == 4,
        command == seq!['t', 'e', 'l', 'n', 'e', 't'] ==> command.len() == 6 && command[0] == 't',
        command == seq!['s', 'c', 'r', 'e', 'e', 'n'] ==> command.len() == 6 && command[0] == 's',
        command == seq!['c', 'u'] ==> command.len() == 2,
        command == seq!['m', 'i', 'n', 'i', 'c', 'o', 'm'] ==> command.len() == 7 && command[0]
            == 'm',
        command == seq!['p', 'i', 'c', 'o', 'c', 'o', 'm'] ==> command.len() == 7 && command[0]
            == 'p',
{
}

proof fn lemma_long_options()
    ensures
        "--"@.len() == 2,
        "--"@[0] == '-',
        "--"@[1] == '-',
        "--port"@.len() == 6,
        "--port"@[1] == '-',
        "--ssh"@.len() == 5,
        "--ssh"@[1] == '-',
        "--baud"@.len() == 6,
        "--baud"@[1] == '-',
        "--imap"@.len() == 6,
        "--imap"@[1] == '-',
        "--omap"@.len() == 6,
        "--omap"@[1] == '-',
        "--emap"@.len() == 6,
        "--emap"@[1] == '-',
{
    reveal_strlit("--");
    reveal_strlit("--port");
    reveal_strlit("--ssh");
    reveal_strlit("--baud");
    reveal_strlit("--imap");
    reveal_strlit("--omap");
    reveal_strlit("--emap");
}

/// The value of the last of combined options, if that takes one.
proof fn lemma_flag_value(command: Seq<char>, policy: ClosePolicy, option: char)
    requires
        opens(command, policy),
        option != '-',
    ensures
        value_follows(command, seq!['-', option]) == option_with_value(command, option),
        seq!['-', option] != "--"@,
{
    lemma_commands(command, policy);
    lemma_distinct(command);
    lemma_long_options();
    let flag = seq!['-', option];
    assert(flag[1] == option);
    let flags = flag.skip(1);
    assert(flags =~= seq![option]);
    reveal_with_fuel(last_takes_value, 2);
}

/// Options do not hide the host: those with a value are passed over with it,
/// the others by themselves.
pub proof fn options_do_not_hide_hosts(
    command: Seq<char>,
    policy: ClosePolicy,
    option: char,
    value: Seq<char>,
    user: Seq<char>,
    host: Seq<char>,
)
    requires
        opens(command, policy),
        plain_char(option),
        option != '-',
        plain_name(value),
        plain_name(user),
        plain_name(host),
    ensures
        ({
            let login = user + seq!['@'] + host;
            let asked = Some(AttemptView { policy, target: Some(lowered(host)) });
            let front = command + seq![' '] + seq!['-', option] + seq![' '];
            if option_with_value(command, option) {
                attempt_of(front + value + seq![' '] + login) == asked
            } else {
                attempt_of(front + login) == asked
            }
        }),
{
    let login = user + seq!['@'] + host;
    let flag = seq!['-', option];
    lemma_opens(command, policy);
    lemma_login_is_bare(user, host);
    lemma_name_is_bare(value);
    the_user_is_no_part_of_the_host(user, host);
    assert(bare_word(flag)) by {
        assert(plain_char(option));
        assert(bare('-'));
        assert(bare(option));
    }
    lemma_flag_value(command, policy, option);
    if option_with_value(command, option) {
        lemma_more_words(command, flag, value, login);
        let ws = seq![command, flag, value, login];
        lemma_target_word(command, ws, 3, lowered(host));
        assert(target_from(command, ws, 2, true, false) == target_from(
            command,
            ws,
            3,
            false,
            false,
        ));
        assert(target_from(command, ws, 1, false, false) == target_from(command, ws, 2, true, false));
    } else {
        lemma_more_words(command, flag, login, login);
        let ws = seq![command, flag, login];
        lemma_target_word(command, ws, 2, lowered(host));
        assert(target_from(command, ws, 1, false, false) == target_from(
            command,
            ws,
            2,
            false,
            false,
        ));
    }
}

/// So it is with long options: two hyphens and a name.
pub proof fn long_options_do_not_hide_hosts(
    command: Seq<char>,
    policy: ClosePolicy,
    option: Seq<char>,
    value: Seq<char>,
    user: Seq<char>,
    host: Seq<char>,
)
    requires
        opens(command, policy),
        option.len() > 2,
        option[0] == '-',
        option[1] == '-',
        forall|k: int| 2 <= k < option.len() ==> plain_char(#[trigger] option[k]),
        plain_name(value),
        plain_name(user),
        plain_name(host),
    ensures
        ({
            let login = user + seq!['@'] + host;
            let asked = Some(AttemptView { policy, target: Some(lowered(host)) });
            let front = command + seq![' '] + option + seq![' '];
            if long_option_with_value(command, option) {
                attempt_of(front + value + seq![' '] + login) == asked
            } else {
                attempt_of(front + login) == asked
            }
        }),
{
    let login = user + seq!['@'] + host;
    lemma_opens(command, policy);
    lemma_login_is_bare(user, host);
    lemma_name_is_bare(value);
    the_user_is_no_part_of_the_host(user, host);
    assert(bare_word(option)) by {
        assert forall|k: int| 0 <= k < option.len() implies bare(#[trigger] option[k]) by {
            if k >= 2 {
                assert(plain_char(option[k]));
            }
        }
    }
    lemma_commands(command, policy);
    lemma_distinct(command);
    lemma_long_options();
    assert(value_follows(command, option) == long_option_with_value(command, option));
    if long_option_with_value(command, option) {
        lemma_more_words(command, option, value, login);
        let ws = seq![command, option, value, login];
        lemma_target_word(command, ws, 3, lowered(host));
        assert(target_from(command, ws, 2, true, false) == target_from(
            command,
            ws,
            3,
            false,
            false,
        ));
        assert(target_from(command, ws, 1, false, false) == target_from(command, ws, 2, true, false));
    } else {
        lemma_more_words(command, option, login, login);
        let ws = seq![command, option, login];
        lemma_target_word(command, ws, 2, lowered(host));
        assert(target_from(command, ws, 1, false, false) == target_from(
            command,
            ws,
            2,
            false,
            false,
        ));
    }
}

/// Another command asks for no remote session.
pub proof fn other_commands_ask_for_nothing(command: Seq<char>, host: Seq<char>)
    requires
        plain_name(host),
        command.len() > 0,
        forall|k: int| 0 <= k < command.len() ==> 'a' <= #[trigger] command[k] <= 'z',
        forall|policy: ClosePolicy| !#[trigger] opens(command, policy),
    ensures
        attempt_of(command + seq![' '] + host) is None,
{
    assert(bare_word(command)) by {
        assert forall|k: int| 0 <= k < command.len() implies bare(#[trigger] command[k]) by {}
    }
    lemma_name_is_bare(host);
    lemma_two_words(command, host);
    assert(lowered(command) =~= command);
    reveal_strlit("ssh");
    reveal_strlit("mosh");
    reveal_strlit("telnet");
    reveal_strlit("screen");
    reveal_strlit("cu");
    reveal_strlit("minicom");
    reveal_strlit("picocom");
    assert("ssh"@ =~= seq!['s', 's', 'h']);
    assert("mosh"@ =~= seq!['m', 'o', 's', 'h']);
    assert("telnet"@ =~= seq!['t', 'e', 'l', 'n', 'e', 't']);
    assert("screen"@ =~= seq!['s', 'c', 'r', 'e', 'e', 'n']);
    assert("cu"@ =~= seq!['c', 'u']);
    assert("minicom"@ =~= seq!['m', 'i', 'n', 'i', 'c', 'o', 'm']);
    assert("picocom"@ =~= seq!['p', 'i', 'c', 'o', 'c', 'o', 'm']);
    assert(!opens(command, ClosePolicy::SshLike));
    assert(!opens(command, ClosePolicy::Telnet));
    assert(!opens(command, ClosePolicy::Screen));
    assert(!opens(command, ClosePolicy::Serial));
    assert(policy_of(command) is None);
}

/// A target that the shell replaces names no host, but the session is asked
/// for all the same.
pub proof fn replaced_targets_name_no_host(
    command: Seq<char>,
    policy: ClosePolicy,
    mark: char,
    name: Seq<char>,
)
    requires
        opens(command, policy),
        mark == '$' || mark == '`' || mark == '*' || mark == '?' || mark == '[' || mark == ']'
            || mark == '~',
        plain_name(name),
    ensures
        attempt_of(command + seq![' '] + seq![mark] + name) == Some(
            AttemptView { policy, target: None },
        ),
{
    let word = seq![mark] + name;
    lemma_opens(command, policy);
    lemma_name_is_bare(name);
    assert(bare_word(word)) by {
        assert forall|k: int| 0 <= k < word.len() implies bare(#[trigger] word[k]) by {
            if k > 0 {
                assert(word[k] == name[k - 1]);
                assert(bare(name[k - 1]));
            }
        }
    }
    lemma_two_words(command, word);
    assert(command + seq![' '] + word =~= command + seq![' '] + seq![mark] + name);
    lemma_long_options();
    assert(word[0] == mark);
    let ws = seq![command, word];
    assert(ws[1] == word);
    assert(target_from(command, ws, 1, false, false) is None);
}

proof fn lemma_quoted_run(s: Seq<char>, i: int, j: int, q: Quote, word: Seq<char>, started: bool)
    requires
        0 <= i <= j <= s.len(),
        q != Quote::Bare,
        forall|k: int|
            i <= k < j ==> #[trigger] s[k] != '\'' && s[k] != '"' && s[k] != '\\',
    ensures
        shell_words_from(s, i, q, word, started) == shell_words_from(
            s,
            j,
            q,
            word + s.subrange(i, j),
            started || i < j,
        ),
    decreases j - i,
{
    if i == j {
        assert(word + s.subrange(i, j) =~= word);
    } else {
        lemma_quoted_run(s, i + 1, j, q, word.push(s[i]), true);
        assert(word.push(s[i]) + s.subrange(i + 1, j) =~= word + s.subrange(i, j));
    }
}

/// Quotation marks around a login make no difference.
pub proof fn logins_may_be_quoted(
    command: Seq<char>,
    policy: ClosePolicy,
    mark: char,
    user: Seq<char>,
    host: Seq<char>,
)
    requires
        opens(command, policy),
        mark == '\'' || mark == '"',
        plain_name(user),
        plain_name(host),
    ensures
        attempt_of(command + seq![' ', mark] + user + seq!['@'] + host + seq![mark]) == Some(
            AttemptView { policy, target: Some(lowered(host)) },
        ),
{
    let login = user + seq!['@'] + host;
    let s = command + seq![' ', mark] + login + seq![mark];
    let none = Seq::<char>::empty();
    let q = if mark == '\'' {
        Quote::Single
    } else {
        Quote::Double
    };
    let n = command.len() as int;
    let e = n + 2 + login.len();
    lemma_opens(command, policy);
    lemma_login_is_bare(user, host);
    the_user_is_no_part_of_the_host(user, host);
    assert(s =~= command + seq![' ', mark] + user + seq!['@'] + host + seq![mark]);
    assert forall|k: int| 0 <= k < n implies bare(#[trigger] s[k]) by {
        assert(s[k] == command[k]);
    }
    lemma_bare_run(s, 0, n, none, false);
    assert(none + s.subrange(0, n) =~= command);
    assert(s[n] == ' ');
    assert(s[n + 1] == mark);
    assert forall|k: int| n + 2 <= k < e implies #[trigger] s[k] != '\'' && s[k] != '"' && s[k]
        != '\\' by {
        assert(s[k] == login[k - n - 2]);
        assert(bare(login[k - n - 2]));
    }
    lemma_quoted_run(s, n + 2, e, q, none, true);
    assert(none + s.subrange(n + 2, e) =~= login);
    assert(s[e] == mark);
    assert(s.len() == e + 1);
    assert(shell_words_from(s, e + 1, Quote::Bare, login, true) == Some(seq![login]));
    assert(shell_words_from(s, e, q, login, true) == Some(seq![login]));
    assert(shell_words_from(s, n + 1, Quote::Bare, none, false) == Some(seq![login]));
    assert(seq![command] + seq![login] =~= seq![command, login]);
    assert(shell_words(s) == Some(seq![command, login]));
    lemma_target_word(command, seq![command, login], 1, lowered(host));
}

/// Brackets around an address are no part of the host.
pub proof fn brackets_are_no_part_of_the_host(user: Seq<char>, host: Seq<char>)
    requires
        plain_name(host),
    ensures
        host_of(seq!['['] + host + seq![']']) == lowered(host),
        host_of(user + seq!['@', '['] + host + seq![']']) == lowered(host),
{
    let inner = seq!['['] + host + seq![']'];
    let n = inner.len() as int;
    assert(inner[0] == '[');
    assert(inner[1] == host[0]);
    assert(plain_char(host[0]));
    assert(inner[n - 1] == ']');
    assert(inner[n - 2] == host.last());
    assert(plain_char(host[host.len() - 1]));
    reveal_with_fuel(skip_brackets, 3);
    reveal_with_fuel(brackets_start, 3);
    assert(skip_brackets(inner, 0) == 1);
    assert(brackets_start(inner, n) == n - 1);
    assert(without_brackets(inner) =~= host);
    assert forall|k: int| 0 <= k < n implies #[trigger] inner[k] != '@' by {
        if 0 < k < n - 1 {
            assert(inner[k] == host[k - 1]);
            assert(plain_char(host[k - 1]));
        }
    }
    lemma_after_at(inner, 0, n);
    assert(inner.skip(0) =~= inner);
    let whole = user + seq!['@', '['] + host + seq![']'];
    let at = user.len() + 1;
    assert(whole =~= user + seq!['@'] + inner);
    assert forall|k: int| at <= k < whole.len() implies #[trigger] whole[k] != '@' by {
        assert(whole[k] == inner[k - at]);
    }
    assert(whole[at - 1] == '@');
    lemma_after_at(whole, at as int, whole.len() as int);
    assert(whole.skip(at as int) =~= inner);
}

} // verus!
