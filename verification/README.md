# pepperx-uinput-helper

A helper that types text into whatever window has the focus, through a virtual
keyboard of the Linux input subsystem. It listens on a Unix socket for requests such
as `{"text": "peut-être"}` and answers `{"ok":true}` or `{"ok":false,"error":"..."}`.

Characters are typed with the chords of the user's XKB layout: the fewest chords, then
the fewest modifiers, with dead keys composed where the layout has no key for a
character. All other characters go through Unicode hex entry (Ctrl+Shift+U).

- `src/` is the verified library. `chord`, `keymap`, `compose` and `mapper` build the
  mapper from characters to strokes; `typing` plans a text as key actions; `keyboard`
  lists the keys to declare; `layout` and `socket` read the settings. `choice` and `laws`
  hold the properties that span them: the plainest chord is kept for each character, a
  dead key is used only where no single chord will do, every text can be typed, every
  key that goes down goes up again, and the keyboard declares every key that is pressed.
- `app/` is the program around it: the socket, the device, libxkbcommon and JSON.
- `tests/` runs the library on fragments of the French and the US layout.

The set of keys of the device is an `evdev::AttributeSet`; its methods, and
`String::from_utf8_lossy`, are the only calls whose contracts are taken on trust.
