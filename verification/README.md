# armada-rgb

Stick lighting for Armada devices: LEDs exposed through Linux's multicolor LED
interface get a solid colour and brightness, or are turned off.

- `src/` is the verified library. `colour` holds the sRGB decoding curve (computed
  exactly, with the fixed-width naturals of `natural`) and the brightness scale;
  `text` and `attributes` read sysfs attribute texts; `targets` checks the declared
  LED names; `config` holds the settings; `backend` decides every step of applying
  settings, as a run that is driven one request at a time.
- `app/` drives such a run against the files under a sysfs root and reports errors
  with `anyhow`.
- `tests/` exercises the library, including whole runs against an in-memory sysfs.
