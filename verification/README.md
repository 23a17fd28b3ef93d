# Kindle information radiator

A small information display for a jailbroken Kindle: the next twelve hours
of weather, the next three calendar events and a countdown to the school
taxi, drawn as SVG, rasterised and painted straight into the e-ink
framebuffer.

## Layout

- `src/` is the library, written in Verus. Every function in it carries a
  contract, and Verus proves the bodies against them.
  - `text.rs`: character-level helpers (search, replacement, decimal
    numbers) with their specifications.
  - `civil.rs`: dates and times as plain values, and the calls into
    `chrono` and `chrono-tz` (Helsinki time).
  - `ical.rs`: the iCalendar reader (unfolding, unescaping, `DTSTART`
    forms, `VEVENT` assembly).
  - `agenda.rs`: next occurrences (recurrences are expanded by `rrule`) and
    the choice of the first upcoming events in time order.
  - `render.rs`: the decisions behind the screen (weather icons, hour
    labels, calendar texts, the taxi countdown, XML escaping, layout).
  - `taxi.rs`: the school taxi schedule, reservation filters, endpoints and
    the next pickup.
  - `pixels.rs`: rasterising with `resvg`, PNG encoding, grey levels,
    the framebuffer copy and input events.
  - `device.rs`: `lipc` commands, the network wait, the battery level and
    when to draw again.
- `app/` is the program around the library: configuration, HTTP, JSON,
  floating-point drawing, font loading, the framebuffer `ioctl`s and the
  main loop.
- `tests/` exercises the library on concrete values.
