use copc::Fields;

#[test]
fn all_contains_every_layer() {
    assert!(Fields::all().contains(Fields::z()));
    assert!(Fields::all().contains(Fields::intensity()));
    assert!(Fields::all().contains(Fields::classification()));
    assert!(Fields::all().contains(Fields::flags()));
    assert!(Fields::all().contains(Fields::scan_angle()));
    assert!(Fields::all().contains(Fields::user_data()));
    assert!(Fields::all().contains(Fields::point_source_id()));
    assert!(Fields::all().contains(Fields::gps_time()));
    assert!(Fields::all().contains(Fields::rgb()));
    assert!(Fields::all().contains(Fields::nir()));
    assert!(Fields::all().contains(Fields::wavepacket()));
    assert!(Fields::all().contains(Fields::extra_bytes()));
}

#[test]
fn composition() {
    let f = Fields::z() | Fields::gps_time();
    assert!(f.contains(Fields::z()));
    assert!(f.contains(Fields::gps_time()));
    assert!(!f.contains(Fields::rgb()));
    assert!(!f.contains(Fields::intensity()));
}

#[test]
fn empty_mask_has_no_layers_set() {
    let sel = Fields::empty().to_laz_selection();
    assert!(!sel.should_decompress_z());
    assert!(!sel.should_decompress_classification());
    assert!(!sel.should_decompress_intensity());
    assert!(!sel.should_decompress_gps_time());
    assert!(!sel.should_decompress_rgb());
}

#[test]
fn selective_mask_enables_only_requested_layers() {
    let sel = (Fields::z() | Fields::gps_time()).to_laz_selection();
    assert!(sel.should_decompress_z());
    assert!(sel.should_decompress_gps_time());
    assert!(!sel.should_decompress_rgb());
    assert!(!sel.should_decompress_intensity());
    assert!(!sel.should_decompress_classification());
    assert!(!sel.should_decompress_nir());
}

#[test]
fn all_mask_enables_every_layer() {
    let sel = Fields::all().to_laz_selection();
    assert!(sel.should_decompress_z());
    assert!(sel.should_decompress_intensity());
    assert!(sel.should_decompress_classification());
    assert!(sel.should_decompress_flags());
    assert!(sel.should_decompress_scan_angle());
    assert!(sel.should_decompress_user_data());
    assert!(sel.should_decompress_point_source_id());
    assert!(sel.should_decompress_gps_time());
    assert!(sel.should_decompress_rgb());
    assert!(sel.should_decompress_nir());
    assert!(sel.should_decompress_wavepacket());
    assert!(sel.should_decompress_extra_bytes());
}
