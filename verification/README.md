# PrismTTY

PrismTTY makes SSH, network-device and Unix terminal output easier to scan: it
highlights what flows through a terminal, and follows a session from one device
to the next.

The engine is written in Verus: what each function does is stated in its
contract, and the contracts are proved. So is that highlighting changes colors
and not the text that is shown, for output whose characters and controls are
complete: CSI sequences, ESC sequences and control strings of bounded length,
and C1 controls other than single shifts, in one byte or in two; CAN and SUB
complete what they cancel. `stream_text` states it of streams, however their
input is cut into chunks (of a stream that someone types at, where chunks end
between controls and no carriage return stands within one), `weave` and
`recolor` of single texts. For other output `recolor` states what holds: every
byte that is not part of an SGR sequence stays, unless it belongs to a control
that is too long to wait for. `unicode` states when UTF-8 comes out as UTF-8.

Highlighting rules come from the configuration and from the profiles of the user:
`PrismConfig`, and the files that the command reads. The bundled profiles name
devices, their prompts and their parents, and carry no rules. Without a
configuration nothing is highlighted.

## Layout

- `src/` is the library. Terminal controls and their filters stand in
  `controls`, `escapes`, `sanitize`, `string_filter`, `split` and `chunks`;
  styles in `style`, `palette`, `sgr`; matching and highlighting in `pcre`,
  `compiled`, `matching`, `paint`, `emit`, `highlight`; streams in
  `stream_model` and `streaming`; profiles and their detection in `profiles`,
  `inheritance`, `hints`, `detection`, `signals`, `prompts`, `selection`;
  sessions in `profile_runtime`, `remote`, `window`, `cache`, `session` and
  `output_loop`. `weave`, `recolor`, `stream_text` and `unicode` hold the laws on
  what highlighting leaves as it is, over the text of whole units that `units`,
  `arrival` and `prompt_cuts` describe; `stripping`, `sanitizing` and `reads`
  those on what filters leave, `restoring` the one on styles that are taken
  back.
- `app/` is the command: arguments, files, YAML, the terminal of the child and
  the read loop.
- `tests/` runs the library on concrete values.

## Trust

The library calls PCRE2 and a few functions of the standard library. Their
contracts are stated next to the calls, in `pcre`, `lossy`, `benchmark`, `text`,
`detection` and `prompt_echo`; everything else is proved.
