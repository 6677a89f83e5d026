# flossfinder

A DMC embroidery floss substitution finder: type a DMC colour number and get the closest
substitute colours, optionally only among the colours in your own stash list.

The library under `src/` is verified with Verus:

- `text`: character-level text operations (`trim`, `lines`, `split_whitespace`, number
  parsing and formatting) with their meaning stated over `Seq<char>`;
- `code`: reading a typed colour code (`normalize_code`, `extract_code`);
- `color`: the colour catalogue (`load_colors`, `hex_to_rgb`, `find_color_index`);
- `matching`: ranking substitutes by distance (`best_matches`);
- `order`: the order of `String` and sorting by it;
- `stash`: the free-form stash list (`parse_stash` and the entry forms it accepts);
- `flosskeeper`: turning a FlossKeeper collection into a stash list;
- `settings`: the saved theme setting;
- `search`, `stash_search`: what the search screens show;
- `laws`, `code_laws`, `stash_laws`: properties of the library as a whole (round trips,
  the ranking, what normalising a code ignores, reading two stash texts joined).

`app/` holds the egui window and the floating-point Lab colour distance, which the
verified library leaves to it: the library ranks colours by distance keys (the bits of the
non-negative distances) that the window computes.
