# linux_legion

Control centre for Lenovo Legion laptops on Linux: power modes and limits,
fans, battery charging modes, the `ideapad_acpi` switches, Spectrum RGB
lighting, and a service that re-applies the custom-mode values after reboot
and sleep.

The library (`src/`) is verified with Verus:

- `spectrum::protocol` — the feature-report protocol of the ITE Spectrum
  controller: requests, effect layers, their encoding and decoding, and how
  overlapping layers are resolved;
- `spectrum::device` — the keyboard's commands over a transport, each stated,
  for a transport that keeps the log of its exchanges, by the exchanges it
  makes and what it returns for the replies, and the parts of device
  discovery that read uevent files and report descriptors;
- `spectrum::sim` — a simulated controller that proves the transport's
  contract, with the laws of what a keyboard on it reads back;
- `spectrum::layout` — placement of the lighting zones for an editor;
- `spectrum::editor` — the edits of the lighting page's layer list and of a
  layer's colours;
- `hw` — the text of sysfs attribute files: power modes and limits, battery,
  fans, switches, and the errors of writing them;
- `autoapply` — the file of saved custom-mode values and the decisions of
  the auto-apply service;
- `text`, `scan` — numbers as text and scanning text as `str` does.

`app/` is the program around it: sysfs and hidraw access, the simulated
laptop, the service loop and a text report of the laptop's state.
