# brush_viewer

The logic of an orbit viewer for Gaussian splat scenes, written in Verus.

A viewer holds an orbit camera, the cached centers of the splats, a crop box and
the settings of a frame. The library computes what each operation makes of that
state, what a click picks, which splats a crop keeps, and the bytes of a frame. All
of it is verified, down to the arithmetic: a number is a binary32 bit pattern
(`Scalar`), and its operations are integer code with exact contracts.

## Layout

- `src/rounding.rs`: rounding a rational to the nearest binary32 number, ties to even
- `src/magnitude.rs`: numbers without their sign, and the operations on them
- `src/scalar.rs`: signed numbers, infinities and what is no number
- `src/vector.rs`: three-dimensional vectors
- `src/scene.rs`: bounds of a scene, its framing, and the splats inside a box
- `src/orbit.rs`: the orbit camera
- `src/pick.rs`: the point under a click
- `src/frame.rs`: colors to RGBA bytes
- `src/state.rs`: the state of a viewer as a mathematical value
- `src/viewer.rs`: the viewer and its operations
- `src/laws.rs`: what holds of a viewer whatever is done with it
- `src/errors.rs`: how far rounded results lie from the exact ones
- `src/moves.rs`: what moving the camera and clicking come to, within rounding
- `src/pan.rs`: what panning comes to on the screen
- `tests/`: tests, also against the machine's own arithmetic and glam
- `app/`: the C interface, trigonometry, and the calls into the splat engine

## Conventions

A handle that may be null is an `Option`. The number of splats in the latest view
is passed in as `latest`; it is missing until a view has been loaded. What takes
trigonometry (the directions of the camera, the tangent of half the field of view,
the angles along a direction) is passed in as numbers.

The order of numbers is stated over their place among all numbers
(`Scalar::rank`), and `law_order_is_that_of_the_values` ties it to their exact
values. The arithmetic is opaque to the solver: where a proof needs what a sum or a
product is, it calls `lemma_plus_value` or `lemma_times_value`, or reveals the
operation.
