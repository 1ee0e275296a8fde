//! The viewer: its state behind an optional handle, as a C caller holds it. A
//! missing handle makes an operation do nothing.
use vstd::prelude::*;
use crate::frame;
use crate::orbit;
use crate::orbit::{Basis, OrbitCamera};
use crate::pick;
use crate::pick::Pick;
use crate::scalar::{ONE, Scalar, TWO, ZERO};
use crate::scene;
use crate::state;
use crate::state::{SplatSource, ViewerState};
use crate::vector::Vec3;

verus! {

/// A viewer of one splat scene.
pub struct BrushViewer {
    orbit: OrbitCamera,
    background: Vec3,
    splat_scale: Option<Scalar>,
    width: u32,
    height: u32,
    splat_means: Vec<Scalar>,
    home_center: Vec3,
    home_distance: Scalar,
    mip: bool,
    scene_min: Vec3,
    scene_max: Vec3,
    crop: Option<(Vec3, Vec3)>,
    cropped: Option<Vec<i32>>,
}

/// Stats returned per frame.
#[derive(Clone, Copy, PartialEq, Eq, Structural, Debug)]
pub struct BrushViewerStats {
    pub num_splats: u32,
    pub has_splats: bool,
}

impl View for BrushViewer {
    type V = ViewerState;

    closed spec fn view(&self) -> ViewerState {
        ViewerState {
            orbit: self.orbit,
            background: self.background,
            splat_scale: self.splat_scale,
            width: self.width,
            height: self.height,
            splat_means: self.splat_means@,
            home_center: self.home_center,
            home_distance: self.home_distance,
            mip: self.mip,
            scene_min: self.scene_min,
            scene_max: self.scene_max,
            crop: self.crop,
            cropped: match self.cropped {
                Some(rows) => Some(rows@),
                None => None,
            },
        }
    }
}

/// What a message of the loading process asks for.
#[derive(Clone, Copy, PartialEq, Eq, Structural, Debug)]
pub enum LoadEvent {
    DoneLoading,
    OtherMessage,
    Failed,
    Ended,
}

#[derive(Clone, Copy, PartialEq, Eq, Structural, Debug)]
pub enum LoadAction {
    KeepReading,
    Stop,
    ReportAndStop,
}

/// Whether to go on reading the loading process: until it is done, fails or ends.
pub open spec fn action_after(event: LoadEvent) -> LoadAction {
    match event {
        LoadEvent::OtherMessage => LoadAction::KeepReading,
        LoadEvent::Failed => LoadAction::ReportAndStop,
        _ => LoadAction::Stop,
    }
}

/// Whether to go on reading the loading process: until it is done, fails or ends.
pub fn next_load_action(event: LoadEvent) -> (r: LoadAction)
    ensures
        r == action_after(event),
        r == (match event {
            LoadEvent::OtherMessage => LoadAction::KeepReading,
            LoadEvent::Failed => LoadAction::ReportAndStop,
            LoadEvent::DoneLoading => LoadAction::Stop,
            LoadEvent::Ended => LoadAction::Stop,
        }),
{
    match event {
        LoadEvent::OtherMessage => LoadAction::KeepReading,
        LoadEvent::Failed => LoadAction::ReportAndStop,
        LoadEvent::DoneLoading => LoadAction::Stop,
        LoadEvent::Ended => LoadAction::Stop,
    }
}

/// Whether the centers of the latest splats are to be read back.
pub fn needs_means(latest: Option<u32>) -> (r: bool)
    ensures
        r == state::has_centers(latest),
{
    match latest {
        Some(n) => n > 0,
        None => false,
    }
}

/// What loading came to: how it ended, the number of splats in the latest view, if
/// there is one, and their centers, if they could be read back.
pub struct LoadedScene {
    pub ended: LoadEvent,
    pub latest: Option<u32>,
    pub means: Option<Vec<Scalar>>,
}

impl LoadedScene {
    /// Whether loading failed before any splats came.
    pub open spec fn spec_failed(&self) -> bool {
        self.ended == LoadEvent::Failed && self.latest is None
    }

    /// Whether loading failed before any splats came.
    #[verifier::when_used_as_spec(spec_failed)]
    pub fn failed(&self) -> (r: bool)
        ensures
            r == self.failed(),
    {
        match self.ended {
            LoadEvent::Failed => self.latest.is_none(),
            _ => false,
        }
    }
}

/// Creates a viewer of a loaded scene, or none where there was no path to load
/// from, loading broke down, or it failed before any splats came.
pub fn brush_viewer_create(scene: Option<LoadedScene>) -> (r: Option<BrushViewer>)
    ensures
        r is Some <==> (scene matches Some(s) && !s.failed()),
        scene matches Some(s) ==> !s.failed() ==> r->0@.wf() && r->0@ == ViewerState::created(
            s.latest,
            match s.means {
                Some(m) => Some(m@),
                None => None,
            },
        ),
{
    let scene = match scene {
        Some(s) => s,
        None => {
            return None;
        },
    };
    if scene.failed() {
        return None;
    }
    let mut orbit = OrbitCamera::new();
    let mut splat_means: Vec<Scalar> = Vec::new();
    if needs_means(scene.latest) {
        if let Some(means) = scene.means {
            let (center, distance) = scene::auto_fit(means.as_slice());
            orbit.center = center;
            orbit.distance = distance;
            splat_means = means;
        }
    }
    let (scene_min, scene_max) = scene::bounds_of_means(splat_means.as_slice());
    Some(
        BrushViewer {
            orbit,
            background: Vec3::splat(Scalar { bits: state::DEFAULT_GRAY }),
            splat_scale: None,
            width: state::DEFAULT_WIDTH,
            height: state::DEFAULT_HEIGHT,
            splat_means,
            home_center: orbit.center,
            home_distance: orbit.distance,
            mip: true,
            scene_min,
            scene_max,
            crop: None,
            cropped: None,
        },
    )
}

/// Whether a viewer has splats, given how many there are in the latest view.
pub open spec fn has_splats(viewer: Option<&BrushViewer>, latest: Option<u32>) -> bool {
    viewer is Some && latest is Some
}

/// Whether at least one splat frame has been loaded.
pub fn brush_viewer_has_splats(viewer: Option<&BrushViewer>, latest: Option<u32>) -> (r: bool)
    ensures
        r == has_splats(viewer, latest),
{
    viewer.is_some() && latest.is_some()
}

/// Updates the size of the render surface.
pub fn brush_viewer_set_size(viewer: Option<&mut BrushViewer>, width: u32, height: u32)
    requires
        viewer matches Some(v) ==> (*v)@.wf(),
    ensures
        viewer matches Some(v) ==> (*final(v))@.wf() && (*final(v))@ == (*v)@.sized(width, height),
{
    if let Some(v) = viewer {
        v.width = orbit::pixels(width);
        v.height = orbit::pixels(height);
    }
}

/// Sets the vertical field of view, in degrees.
pub fn brush_viewer_set_fov(viewer: Option<&mut BrushViewer>, fov_degrees: Scalar)
    requires
        viewer matches Some(v) ==> (*v)@.wf(),
    ensures
        viewer matches Some(v) ==> (*final(v))@.wf() && (*final(v))@ == (*v)@.with_fov(fov_degrees),
{
    if let Some(v) = viewer {
        v.orbit.fov_y = fov_degrees.times(Scalar { bits: state::RADIANS_PER_DEGREE });
    }
}

/// Orbits the camera around its pivot, by angles in radians.
pub fn brush_viewer_orbit(viewer: Option<&mut BrushViewer>, delta_x: Scalar, delta_y: Scalar)
    requires
        viewer matches Some(v) ==> (*v)@.wf(),
    ensures
        viewer matches Some(v) ==> (*final(v))@.wf() && (*final(v))@ == (*v)@.orbited(
            delta_x,
            delta_y,
        ),
{
    if let Some(v) = viewer {
        v.orbit.yaw = v.orbit.yaw.plus(delta_x);
        v.orbit.pitch = v.orbit.pitch.plus(delta_y);
    }
}

/// Pans the camera by screen pixels, scaled to world units at the pivot, given the
/// directions of the camera and the tangent of half its vertical field of view.
pub fn brush_viewer_pan(
    viewer: Option<&mut BrushViewer>,
    delta_x: Scalar,
    delta_y: Scalar,
    basis: Basis,
    tan_half_fov: Scalar,
)
    requires
        viewer matches Some(v) ==> (*v)@.wf(),
    ensures
        viewer matches Some(v) ==> (*final(v))@.wf() && (*final(v))@ == (*v)@.panned(
            delta_x,
            delta_y,
            basis,
            tan_half_fov,
        ),
{
    if let Some(v) = viewer {
        let two = Scalar { bits: TWO };
        let h = Scalar::from_u32(orbit::pixels(v.height));
        let scale = two.times(v.orbit.distance).times(tan_half_fov).over(h);
        let shift = basis.right.scaled(delta_x.times(scale)).plus(
            basis.up.scaled(delta_y.times(scale)),
        );
        v.orbit.center = v.orbit.center.minus(shift);
    }
}

/// Turns the camera to a picked point and makes it the pivot, given the angles
/// that look along the picked direction.
pub fn brush_viewer_recenter_at(
    viewer: Option<&mut BrushViewer>,
    pick: Pick,
    yaw: Scalar,
    pitch: Scalar,
)
    requires
        viewer matches Some(v) ==> (*v)@.wf(),
    ensures
        viewer matches Some(v) ==> (*final(v))@.wf() && (*final(v))@ == (*v)@.recentered(
            pick,
            yaw,
            pitch,
        ),
{
    if let Some(v) = viewer {
        v.orbit.yaw = yaw;
        v.orbit.pitch = pitch;
        v.orbit.distance = pick.depth.at_least(Scalar { bits: orbit::CLOSEST });
        v.orbit.center = pick.point;
    }
}

/// Zooms the camera by changing its distance from the pivot; a positive `delta`
/// zooms in.
pub fn brush_viewer_zoom(viewer: Option<&mut BrushViewer>, delta: Scalar)
    requires
        viewer matches Some(v) ==> (*v)@.wf(),
    ensures
        viewer matches Some(v) ==> (*final(v))@.wf() && (*final(v))@ == (*v)@.zoomed(delta),
{
    if let Some(v) = viewer {
        let one = Scalar { bits: ONE };
        let kept = one.minus(delta.times(Scalar { bits: state::ZOOM_STEP }));
        v.orbit.distance = v.orbit.distance.times(kept).at_least(Scalar { bits: orbit::CLOSEST });
    }
}

/// Resets the camera to the home view: pivot, distance and angles.
pub fn brush_viewer_reset_view(viewer: Option<&mut BrushViewer>)
    requires
        viewer matches Some(v) ==> (*v)@.wf(),
    ensures
        viewer matches Some(v) ==> (*final(v))@.wf() && (*final(v))@ == (*v)@.at_home(),
{
    if let Some(v) = viewer {
        v.orbit.center = v.home_center;
        v.orbit.distance = v.home_distance;
        v.orbit.yaw = Scalar { bits: orbit::HOME_YAW };
        v.orbit.pitch = Scalar { bits: orbit::HOME_PITCH };
    }
}

/// For each world axis, its components along the camera's right, up and forward.
pub open spec fn axes_of(basis: Basis) -> Seq<Scalar> {
    let one = Scalar { bits: ONE };
    let zero = Scalar { bits: ZERO };
    let x = Vec3 { x: one, y: zero, z: zero };
    let y = Vec3 { x: zero, y: one, z: zero };
    let z = Vec3 { x: zero, y: zero, z: one };
    seq![
        x.dot(basis.right),
        x.dot(basis.up),
        x.dot(basis.forward),
        y.dot(basis.right),
        y.dot(basis.up),
        y.dot(basis.forward),
        z.dot(basis.right),
        z.dot(basis.up),
        z.dot(basis.forward),
    ]
}

/// Fills nine numbers with the camera-space directions of the world axes X, Y
/// and Z, each as its components to the right, up and forward.
pub fn brush_viewer_get_axes(
    viewer: Option<&BrushViewer>,
    basis: Basis,
    out_xyz: Option<&mut [Scalar]>,
)
    requires
        out_xyz matches Some(out) ==> out@.len() >= 9,
    ensures
        out_xyz matches Some(out) ==> final(out)@ == if viewer is Some {
            axes_of(basis) + out@.skip(9)
        } else {
            out@
        },
{
    if viewer.is_none() {
        return;
    }
    if let Some(out) = out_xyz {
        let one = Scalar { bits: ONE };
        let zero = Scalar { bits: ZERO };
        let ghost before = out@;
        for i in 0..3usize
            invariant
                out@.len() == before.len(),
                before.len() >= 9,
                one == (Scalar { bits: ONE }),
                zero == (Scalar { bits: ZERO }),
                forall|k: int|
                    0 <= k < before.len() ==> out@[k] == if k < 3 * i {
                        axes_of(basis)[k]
                    } else {
                        before[k]
                    },
        {
            let e = Vec3 {
                x: if i == 0 { one } else { zero },
                y: if i == 1 { one } else { zero },
                z: if i == 2 { one } else { zero },
            };
            out[i * 3] = e.dot(basis.right);
            out[i * 3 + 1] = e.dot(basis.up);
            out[i * 3 + 2] = e.dot(basis.forward);
        }
        assert(out@ =~= axes_of(basis) + before.skip(9));
    }
}

/// Sets the background color, each component from 0 to 1.
pub fn brush_viewer_set_background(
    viewer: Option<&mut BrushViewer>,
    r: Scalar,
    g: Scalar,
    b: Scalar,
)
    requires
        viewer matches Some(v) ==> (*v)@.wf(),
    ensures
        viewer matches Some(v) ==> (*final(v))@.wf() && (*final(v))@ == (*v)@.with_background(
            Vec3 { x: r, y: g, z: b },
        ),
{
    if let Some(v) = viewer {
        v.background = Vec3 { x: r, y: g, z: b };
    }
}

/// Turns anti-aliasing on or off.
pub fn brush_viewer_set_mip(viewer: Option<&mut BrushViewer>, enabled: bool)
    requires
        viewer matches Some(v) ==> (*v)@.wf(),
    ensures
        viewer matches Some(v) ==> (*final(v))@.wf() && (*final(v))@ == (*v)@.with_mip(enabled),
{
    if let Some(v) = viewer {
        v.mip = enabled;
    }
}

/// Sets the crop box, from and to fractions of the scene bounds along each axis,
/// or clears it where it is not enabled.
pub fn brush_viewer_set_crop(
    viewer: Option<&mut BrushViewer>,
    fxmin: Scalar,
    fymin: Scalar,
    fzmin: Scalar,
    fxmax: Scalar,
    fymax: Scalar,
    fzmax: Scalar,
    enabled: bool,
    latest: Option<u32>,
)
    requires
        viewer matches Some(v) ==> (*v)@.wf(),
    ensures
        viewer matches Some(v) ==> (*final(v))@.wf() && (*final(v))@ == if enabled {
            (*v)@.cropped_to(
                Vec3 { x: fxmin, y: fymin, z: fzmin },
                Vec3 { x: fxmax, y: fymax, z: fzmax },
                latest,
            )
        } else {
            (*v)@.uncropped()
        },
{
    if let Some(v) = viewer {
        if !enabled {
            v.crop = None;
            v.cropped = None;
            return;
        }
        let size = v.scene_max.minus(v.scene_min);
        let from = Vec3 { x: fxmin, y: fymin, z: fzmin };
        let to = Vec3 { x: fxmax, y: fymax, z: fzmax };
        let wmin = v.scene_min.plus(from.times(size));
        let wmax = v.scene_min.plus(to.times(size));
        v.crop = Some((wmin, wmax));
        v.cropped = match latest {
            Some(_) => scene::crop_splats(v.splat_means.as_slice(), wmin, wmax),
            None => None,
        };
    }
}

/// Sets the splat scale; zero or less goes back to the default.
pub fn brush_viewer_set_splat_scale(viewer: Option<&mut BrushViewer>, scale: Scalar)
    requires
        viewer matches Some(v) ==> (*v)@.wf(),
    ensures
        viewer matches Some(v) ==> (*final(v))@.wf() && (*final(v))@ == (*v)@.with_splat_scale(
            scale,
        ),
{
    if let Some(v) = viewer {
        v.splat_scale = if scale.le(Scalar { bits: ZERO }) { None } else { Some(scale) };
    }
}

/// The number of splats, where there is a viewer that has any.
pub open spec fn stats(viewer: Option<&BrushViewer>, latest: Option<u32>) -> BrushViewerStats {
    match latest {
        Some(n) if viewer is Some => BrushViewerStats { num_splats: n, has_splats: true },
        _ => BrushViewerStats { num_splats: 0, has_splats: false },
    }
}

/// The current stats.
pub fn brush_viewer_get_stats(
    viewer: Option<&BrushViewer>,
    latest: Option<u32>,
) -> (r: BrushViewerStats)
    ensures
        r == stats(viewer, latest),
{
    if viewer.is_none() {
        return BrushViewerStats { num_splats: 0, has_splats: false };
    }
    match latest {
        Some(n) => BrushViewerStats { num_splats: n, has_splats: true },
        None => BrushViewerStats { num_splats: 0, has_splats: false },
    }
}

/// The splats to export, if there are a viewer, a path and splats.
pub open spec fn exported(
    viewer: Option<&BrushViewer>,
    has_path: bool,
    latest: Option<u32>,
) -> Option<SplatSource> {
    match viewer {
        Some(v) if has_path => v@.shown(latest),
        _ => None,
    }
}

/// The splats to export, if there are a viewer, a path and splats.
pub fn export_source(
    viewer: Option<&BrushViewer>,
    has_path: bool,
    latest: Option<u32>,
) -> (r: Option<SplatSource>)
    ensures
        r == exported(viewer, has_path, latest),
{
    match viewer {
        Some(v) => if has_path {
            v.source(latest)
        } else {
            None
        },
        None => None,
    }
}

/// How writing an export went.
#[derive(Clone, Copy, PartialEq, Eq, Structural, Debug)]
pub enum ExportOutcome {
    Written,
    NotWritten,
    NotEncoded,
    BrokeDown,
}

/// Whether an export succeeded: there was something to export, and it was
/// encoded and written.
pub open spec fn export_succeeds(
    viewer: Option<&BrushViewer>,
    has_path: bool,
    latest: Option<u32>,
    outcome: ExportOutcome,
) -> bool {
    exported(viewer, has_path, latest) is Some && outcome == ExportOutcome::Written
}

/// Whether an export succeeded: there was something to export, and it was
/// encoded and written.
pub fn brush_viewer_export_cropped(
    viewer: Option<&BrushViewer>,
    has_path: bool,
    latest: Option<u32>,
    outcome: ExportOutcome,
) -> (r: bool)
    ensures
        r == export_succeeds(viewer, has_path, latest, outcome),
        r == (exported(viewer, has_path, latest) is Some && outcome == ExportOutcome::Written),
{
    if export_source(viewer, has_path, latest).is_none() {
        return false;
    }
    match outcome {
        ExportOutcome::Written => true,
        ExportOutcome::NotWritten => false,
        ExportOutcome::NotEncoded => false,
        ExportOutcome::BrokeDown => false,
    }
}

/// What to render for a frame.
#[derive(Clone, Copy, PartialEq, Eq, Structural, Debug)]
pub struct FramePlan {
    pub source: SplatSource,
    pub render_mip: bool,
    pub width: u32,
    pub height: u32,
    pub background: Vec3,
    pub splat_scale: Option<Scalar>,
    pub yaw: Scalar,
    pub pitch: Scalar,
}

/// What to render for a frame, if there are a viewer, a buffer and splats.
pub open spec fn planned(
    viewer: Option<&BrushViewer>,
    width: u32,
    height: u32,
    has_buffer: bool,
    latest: Option<u32>,
) -> Option<FramePlan> {
    match viewer {
        Some(v) if has_buffer => match v@.shown(latest) {
            Some(source) => Some(
                FramePlan {
                    source,
                    render_mip: v@.mip,
                    width: orbit::at_least_one(width),
                    height: orbit::at_least_one(height),
                    background: v@.background,
                    splat_scale: v@.splat_scale,
                    yaw: v@.orbit.yaw,
                    pitch: v@.orbit.camera_pitch(),
                },
            ),
            None => None,
        },
        _ => None,
    }
}

/// What to render for a frame, if there are a viewer, a buffer and splats.
pub fn plan_frame(
    viewer: Option<&BrushViewer>,
    width: u32,
    height: u32,
    has_buffer: bool,
    latest: Option<u32>,
) -> (r: Option<FramePlan>)
    ensures
        r == planned(viewer, width, height, has_buffer, latest),
{
    let v = match viewer {
        Some(v) => v,
        None => {
            return None;
        },
    };
    if !has_buffer {
        return None;
    }
    match v.source(latest) {
        Some(source) => Some(
            FramePlan {
                source,
                render_mip: v.mip,
                width: orbit::pixels(width),
                height: orbit::pixels(height),
                background: v.background,
                splat_scale: v.splat_scale,
                yaw: v.orbit.yaw,
                pitch: v.orbit.camera_pitch(),
            },
        ),
        None => None,
    }
}

/// The bytes that a frame has to fill, four for each pixel of the given size. There
/// is no frame where there is nothing to show, where rendering broke down, or where
/// 32 bits do not count the bytes of what is rendered, at least one pixel each way.
pub open spec fn frame_due(
    viewer: Option<&BrushViewer>,
    width: u32,
    height: u32,
    latest: Option<u32>,
    rendered: Option<&[Scalar]>,
) -> Option<int> {
    if planned(viewer, width, height, true, latest) is Some && rendered is Some
        && frame::frame_size(orbit::at_least_one(width), orbit::at_least_one(height)) is Some {
        Some(width * height * 4)
    } else {
        None
    }
}

/// Writes a rendered frame into the caller's RGBA buffer, and tells whether
/// there was one. The colors are those that the plan for the same frame gave, and
/// missing where rendering broke down. A frame without width or height has no bytes.
pub fn brush_viewer_render_frame(
    viewer: Option<&BrushViewer>,
    width: u32,
    height: u32,
    rgba_out: Option<&mut [u8]>,
    latest: Option<u32>,
    rendered: Option<&[Scalar]>,
) -> (r: bool)
    requires
        rgba_out matches Some(out) ==> frame::frame_fits(width, height, out@.len()),
    ensures
        r == (rgba_out is Some && frame_due(viewer, width, height, latest, rendered) is Some),
        rgba_out matches Some(out) ==> final(out)@ == match frame_due(
            viewer,
            width,
            height,
            latest,
            rendered,
        ) {
            Some(n) => frame::filled(out@, rendered->0@, frame::covered(rendered->0@, n)),
            None => out@,
        },
{
    let plan = match plan_frame(viewer, width, height, rgba_out.is_some(), latest) {
        Some(p) => p,
        None => {
            return false;
        },
    };
    let colors = match rendered {
        Some(c) => c,
        None => {
            return false;
        },
    };
    if frame::frame_len(plan.width, plan.height).is_none() {
        return false;
    }
    proof {
        frame::lemma_size_grows(width, plan.width, height, plan.height);
    }
    let len: usize = match frame::frame_len(width, height) {
        Some(n) => n,
        None => {
            return false;
        },
    };
    if let Some(out) = rgba_out {
        frame::fill_frame(colors, len, out);
        true
    } else {
        false
    }
}

/// The stats tell of splats exactly where the viewer does, and count none elsewhere.
pub proof fn law_stats_tell_of_splats(viewer: Option<&BrushViewer>, latest: Option<u32>)
    ensures
        stats(viewer, latest).has_splats == has_splats(viewer, latest),
        !has_splats(viewer, latest) ==> stats(viewer, latest).num_splats == 0,
{
}

/// An export holds the same splats that a frame shows.
pub proof fn law_export_holds_what_is_shown(
    viewer: Option<&BrushViewer>,
    width: u32,
    height: u32,
    latest: Option<u32>,
)
    ensures
        exported(viewer, true, latest) == match planned(viewer, width, height, true, latest) {
            Some(plan) => Some(plan.source),
            None => None,
        },
{
}

impl BrushViewer {
    /// The splats to show: those of an active crop, else all of the latest view.
    fn source(&self, latest: Option<u32>) -> (r: Option<SplatSource>)
        ensures
            r == self@.shown(latest),
    {
        if self.crop.is_some() {
            if self.cropped.is_some() {
                Some(SplatSource::Cropped)
            } else {
                None
            }
        } else if latest.is_some() {
            Some(SplatSource::Full)
        } else {
            None
        }
    }

    /// The camera state.
    pub fn orbit_camera(&self) -> (r: OrbitCamera)
        ensures
            r == self@.orbit,
    {
        self.orbit
    }

    /// The rows to select for the cropped splats.
    pub fn cropped_rows(&self) -> (r: Option<&Vec<i32>>)
        ensures
            r is Some <==> self@.cropped is Some,
            r matches Some(rows) ==> self@.cropped == Some(rows@),
    {
        match &self.cropped {
            Some(rows) => Some(rows),
            None => None,
        }
    }

    /// The camera-space direction through a pixel of the render surface.
    pub fn click_ray(&self, px: Scalar, py: Scalar, tan_half_fov: Scalar) -> (r: Vec3)
        ensures
            r == pick::ray_through(px, py, self@.width, self@.height, tan_half_fov),
    {
        pick::pixel_ray(px, py, self.width, self.height, tan_half_fov)
    }

    /// What a click picks, when the camera looks along `forward` and the pixel
    /// lies in the world-space direction `world_ray`.
    pub fn pick_along(&self, forward: Vec3, world_ray: Vec3, tan_half_fov: Scalar) -> (r: Pick)
        ensures
            r == pick::picked(
                self@.orbit,
                self@.height,
                self@.splat_means,
                forward,
                world_ray,
                tan_half_fov,
            ),
    {
        pick::pick(
            self.orbit,
            self.height,
            self.splat_means.as_slice(),
            forward,
            world_ray,
            tan_half_fov,
        )
    }
}

} // verus!
