# feiting

A viewer for the draw history of four airship / racing lottery games (SG飛艇,
幸運飛艇, 急速飛艇, 急速賽車), written in Verus.

- `src/` is the verified library: reading a consecutive pattern such as
  `單單雙` or `大小小`, sorting draws by draw number, finding every stretch of
  consecutive draws whose first numbers follow the pattern, the Beijing-time
  display of draw times, and the viewer state (game selection, fetch status,
  what the result area shows).
- `app/` is the desktop program around it: the egui window, the HTTP request
  with the login cookie, and JSON decoding.
- `tests/` runs the library on concrete draws.
