use streamd_server::capture::windows::{
    build_display_list, capture_timestamp_us, copy_mapped_frame, display_height, display_width,
    output_name, pixel_format_from_dxgi, plan_staging_texture, pump_step, select_output,
    timestamp_us_from_micros, wide_string, windows_display_description, windows_display_id,
    AcquireOutcome, AdapterOutputs, CaptureError, DisplayInfo, MappedSubresource, OutputDesc,
    PumpStep, Rect, ReleaseFrameGuard, SampleDesc, StagingState, TextureDesc, D3D11_CPU_ACCESS_READ,
    D3D11_USAGE_STAGING, DXGI_FORMAT_B8G8R8A8_UNORM, DXGI_FORMAT_B8G8R8X8_UNORM,
};
use streamd_server::capture::{DmabufPixelFormat, ShmPixelFormat};

fn wide(s: &str, pad: usize) -> Vec<u16> {
    let mut v: Vec<u16> = s.encode_utf16().collect();
    v.extend(std::iter::repeat(0).take(pad));
    v
}

fn output(name: &str, attached: bool, rect: (i32, i32, i32, i32)) -> OutputDesc {
    OutputDesc {
        device_name: wide(name, 4),
        desktop_coordinates: Rect { left: rect.0, top: rect.1, right: rect.2, bottom: rect.3 },
        attached_to_desktop: attached,
    }
}

#[test]
fn dxgi_formats_map_to_shm_layouts() {
    assert_eq!(pixel_format_from_dxgi(DXGI_FORMAT_B8G8R8A8_UNORM), Some(ShmPixelFormat::Argb8888));
    assert_eq!(pixel_format_from_dxgi(DXGI_FORMAT_B8G8R8X8_UNORM), Some(ShmPixelFormat::Xrgb8888));
    assert_eq!(pixel_format_from_dxgi(87), Some(ShmPixelFormat::Argb8888));
    assert_eq!(pixel_format_from_dxgi(28), None);
    assert_ne!(DmabufPixelFormat::Xrgb8888, DmabufPixelFormat::Argb8888);
}

#[test]
fn wide_string_stops_at_nul() {
    assert_eq!(wide_string(&wide("\\\\.\\DISPLAY1", 20)), "\\\\.\\DISPLAY1");
    assert_eq!(wide_string(&wide("abc", 0)), "abc");
    assert_eq!(wide_string(&[0, 65, 66]), "");
    assert_eq!(wide_string(&[]), "");
}

#[test]
fn wide_string_decodes_utf16_lossily() {
    // "é" then a surrogate pair for U+1F600, then an unpaired surrogate.
    assert_eq!(wide_string(&[0xe9, 0xd83d, 0xde00, 0xd800, 0x41, 0]), "é😀\u{fffd}A");
}

#[test]
fn output_name_is_device_name() {
    let desc = output("\\\\.\\DISPLAY2", true, (0, 0, 10, 10));
    assert_eq!(output_name(&desc), "\\\\.\\DISPLAY2");
}

#[test]
fn display_ids() {
    assert_eq!(windows_display_id(0, 1), "windows:0:1");
    assert_eq!(windows_display_id(12, 305), "windows:12:305");
    assert_eq!(windows_display_id(u32::MAX, 0), "windows:4294967295:0");
}

#[test]
fn display_descriptions() {
    assert_eq!(
        windows_display_description("  NVIDIA GeForce RTX 4070 ", "\\\\.\\DISPLAY1"),
        Some("NVIDIA GeForce RTX 4070 / \\\\.\\DISPLAY1".to_string())
    );
    assert_eq!(windows_display_description(" \t ", "\\\\.\\DISPLAY1"), None);
    assert_eq!(windows_display_description("", "x"), None);
    assert_eq!(windows_display_description(" DISPLAY1 ", "DISPLAY1"), None);
}

#[test]
fn display_extent_is_clamped_at_zero() {
    let desc = output("a", true, (-1920, 100, 0, 1180));
    assert_eq!(display_width(&desc), 1920);
    assert_eq!(display_height(&desc), 1080);
    let inverted = output("a", true, (50, 50, 10, 50));
    assert_eq!(display_width(&inverted), 0);
    assert_eq!(display_height(&inverted), 0);
}

fn sample_adapters() -> Vec<AdapterOutputs> {
    vec![
        AdapterOutputs {
            description: wide(" Intel UHD ", 10),
            outputs: vec![
                output("\\\\.\\DISPLAY1", true, (0, 0, 1920, 1080)),
                output("\\\\.\\DISPLAY9", false, (0, 0, 0, 0)),
                output("\\\\.\\DISPLAY2", true, (1920, 0, 4480, 1440)),
            ],
        },
        AdapterOutputs { description: wide("Empty", 0), outputs: vec![] },
        AdapterOutputs {
            description: wide("", 3),
            outputs: vec![output("\\\\.\\DISPLAY3", true, (0, -1080, 1920, 0))],
        },
    ]
}

#[test]
fn display_list_covers_attached_outputs_in_order() {
    let entries = build_display_list(&sample_adapters()).unwrap();
    assert_eq!(entries.len(), 3);
    let positions: Vec<(u32, u32)> =
        entries.iter().map(|e| (e.adapter_index, e.output_index)).collect();
    assert_eq!(positions, vec![(0, 0), (0, 2), (2, 0)]);
    let ids: Vec<&str> = entries.iter().map(|e| e.info.id.as_str()).collect();
    assert_eq!(ids, vec!["windows:0:0", "windows:0:2", "windows:2:0"]);
    let indices: Vec<u32> = entries.iter().map(|e| e.info.index).collect();
    assert_eq!(indices, vec![0, 1, 2]);
    assert_eq!(entries[1].info.name, "\\\\.\\DISPLAY2");
    assert_eq!(entries[1].info.description.as_deref(), Some("Intel UHD / \\\\.\\DISPLAY2"));
    assert_eq!((entries[1].info.width, entries[1].info.height), (2560, 1440));
    assert_eq!(entries[2].info.description, None);
    assert_eq!((entries[2].info.width, entries[2].info.height), (1920, 1080));
}

#[test]
fn display_list_without_attached_output_fails() {
    let adapters = vec![AdapterOutputs {
        description: wide("GPU", 0),
        outputs: vec![output("\\\\.\\DISPLAY1", false, (0, 0, 1, 1))],
    }];
    assert_eq!(build_display_list(&adapters).unwrap_err(), CaptureError::NoAttachedOutput);
    assert_eq!(build_display_list(&[]).unwrap_err(), CaptureError::NoAttachedOutput);
}

fn infos() -> Vec<DisplayInfo> {
    build_display_list(&sample_adapters()).unwrap().into_iter().map(|e| e.info).collect()
}

#[test]
fn select_output_by_id_or_first() {
    let displays = infos();
    assert_eq!(select_output(&displays, None), Ok(0));
    assert_eq!(select_output(&displays, Some("windows:0:2")), Ok(1));
    assert_eq!(select_output(&displays, Some("windows:2:0")), Ok(2));
    assert_eq!(
        select_output(&displays, Some("windows:1:0")),
        Err(CaptureError::DisplayNotAvailable("windows:1:0".to_string()))
    );
    assert_eq!(select_output(&[], None), Err(CaptureError::NoAttachedOutput));
    assert_eq!(select_output(&[], Some("windows:0:0")), Err(CaptureError::NoAttachedOutput));
}

#[test]
fn mapped_frame_rows_are_packed() {
    // 2 pixels wide (8 bytes per row), 2 rows, pitch 12.
    let src: Vec<u8> = (0u8..20).collect();
    let mapped = MappedSubresource { data: Some(&src), row_pitch: 12 };
    let (data, stride) = copy_mapped_frame(&mapped, 2, 2, ShmPixelFormat::Xrgb8888).unwrap();
    assert_eq!(stride, 8);
    assert_eq!(data, vec![0, 1, 2, 3, 4, 5, 6, 7, 12, 13, 14, 15, 16, 17, 18, 19]);
}

#[test]
fn tight_mapped_frame_is_copied_unchanged() {
    let src: Vec<u8> = (0u8..24).collect();
    let mapped = MappedSubresource { data: Some(&src), row_pitch: 8 };
    let (data, stride) = copy_mapped_frame(&mapped, 2, 3, ShmPixelFormat::Argb8888).unwrap();
    assert_eq!(stride, 8);
    assert_eq!(data, src);
}

#[test]
fn empty_frame_is_empty() {
    let mapped = MappedSubresource { data: Some(&[]), row_pitch: 0 };
    let (data, stride) = copy_mapped_frame(&mapped, 0, 0, ShmPixelFormat::Argb8888).unwrap();
    assert_eq!((data.len(), stride), (0, 0));
}

#[test]
fn mapped_frame_errors() {
    let null = MappedSubresource { data: None, row_pitch: 64 };
    assert_eq!(
        copy_mapped_frame(&null, 2, 2, ShmPixelFormat::Argb8888),
        Err(CaptureError::NullMapping)
    );
    let src = [0u8; 64];
    let narrow = MappedSubresource { data: Some(&src), row_pitch: 7 };
    assert_eq!(
        copy_mapped_frame(&narrow, 2, 2, ShmPixelFormat::Argb8888),
        Err(CaptureError::RowPitchTooSmall { row_pitch: 7, bytes_per_row: 8 })
    );
}

fn texture(width: u32, height: u32, format: i32) -> TextureDesc {
    TextureDesc {
        width,
        height,
        mip_levels: 1,
        array_size: 1,
        format,
        sample_desc: SampleDesc { count: 1, quality: 0 },
        usage: 0,
        bind_flags: 0x20,
        cpu_access_flags: 0,
        misc_flags: 0,
    }
}

#[test]
fn staging_texture_is_made_once_per_size_and_format() {
    let source = texture(1920, 1080, DXGI_FORMAT_B8G8R8A8_UNORM);
    let staging = plan_staging_texture(None, &source).unwrap();
    assert_eq!((staging.width, staging.height, staging.format), (1920, 1080, 87));
    assert_eq!(staging.usage, D3D11_USAGE_STAGING);
    assert_eq!(staging.cpu_access_flags, D3D11_CPU_ACCESS_READ);
    assert_eq!((staging.bind_flags, staging.misc_flags, staging.mip_levels, staging.array_size), (0, 0, 1, 1));
    assert_eq!(plan_staging_texture(Some(staging), &source), None);
    let resized = texture(2560, 1440, DXGI_FORMAT_B8G8R8A8_UNORM);
    assert_eq!(plan_staging_texture(Some(staging), &resized).map(|d| d.width), Some(2560));
    let reformatted = texture(1920, 1080, DXGI_FORMAT_B8G8R8X8_UNORM);
    assert!(plan_staging_texture(Some(staging), &reformatted).is_some());
}

#[test]
fn pump_steps() {
    assert_eq!(pump_step(AcquireOutcome::Acquired), PumpStep::CopyFrame);
    assert_eq!(pump_step(AcquireOutcome::WaitTimeout), PumpStep::Retry);
    assert_eq!(pump_step(AcquireOutcome::AccessLost), PumpStep::RecreateDuplication);
    assert_eq!(pump_step(AcquireOutcome::Failed), PumpStep::Fail);
}

#[test]
fn timestamps() {
    assert_eq!(timestamp_us_from_micros(None), 0);
    assert_eq!(timestamp_us_from_micros(Some(1_700_000_000_000_000)), 1_700_000_000_000_000);
    assert_eq!(timestamp_us_from_micros(Some((1u128 << 64) + 7)), 7);
    // Later than 2020-09-13, when the clock is sane.
    assert!(capture_timestamp_us() > 1_600_000_000_000_000);
}

#[test]
fn release_guard_starts_active() {
    let session = 5u32;
    let guard = ReleaseFrameGuard::new(&session);
    assert!(guard.active);
    assert_eq!(*guard.duplication, 5);
}

#[test]
fn wide_string_round_trips_encoded_text() {
    for text in ["DISPLAY1", "Écran 2 😀", ""] {
        let mut units: Vec<u16> = text.encode_utf16().collect();
        assert_eq!(wide_string(&units), text);
        units.push(0);
        units.extend([0x41, 0xd800, 7]);
        assert_eq!(wide_string(&units), text);
    }
    assert_eq!(wide_string(&[0x41, 0]), "A");
}

#[test]
fn staging_state_follows_the_session() {
    let source = texture(1280, 720, DXGI_FORMAT_B8G8R8A8_UNORM);
    let mut state: StagingState<&str> = StagingState::new();
    assert!(state.current.is_none());
    let plan = state.plan(&source).unwrap();
    assert_eq!(plan.usage, D3D11_USAGE_STAGING);
    state.install("staging-1", plan);
    assert_eq!(state.current.map(|(t, d)| (t, d.width)), Some(("staging-1", 1280)));
    assert_eq!(state.plan(&source), None);
    state.on_duplication_recreated();
    assert!(state.current.is_none());
    assert_eq!(state.plan(&source), Some(plan));
}
